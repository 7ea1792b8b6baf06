use vstd::prelude::*;
use crate::rng::{thread_rng_handle, random_u32};
use crate::key::IntKey;
use crate::ordered::{has_key, first_index, keys_strict, insert_spot, is_insert_spot, lemma_strict_match, lemma_insert_spot_unique, lemma_strict_sorted, lemma_insert_spot_exists};
use crate::vec::{ManVec, cap_after_push};

verus! {

/// The side of a coin that the number `n` stands for: heads (`true`) when
/// `n` is odd.
pub fn coin_of(n: u32) -> (r: bool)
    ensures
        r == (n % 2 == 1),
{
    if n % 2 == 1 {
        true
    } else {
        false
    }
}

/// The number of coin flips that decide the height of a new node.
pub const MAX_LEVEL: usize = 32;

/// The value of a pointer that points nowhere.
pub const NULL_INDEX: usize = usize::MAX;


/// A pointer to a node: its index in the list's node store, or `NULL_INDEX`.
#[derive(Clone, Copy, PartialEq, Eq, Structural)]
pub struct NodePtr(usize);

impl NodePtr {
    /// The index that the pointer holds.
    pub closed spec fn index(&self) -> usize {
        self.0
    }

    /// The pointer that points nowhere.
    fn new() -> (r: NodePtr)
        ensures
            r.index() == NULL_INDEX,
    {
        NodePtr(NULL_INDEX)
    }

    /// Whether the pointer points nowhere.
    fn is_null(&self) -> (r: bool)
        ensures
            r == (self.index() == NULL_INDEX),
    {
        self.0 == NULL_INDEX
    }
}

/// A node: one entry and its forward pointers, one per level.
#[allow(non_snake_case)]
pub struct Node<K, V> {
    data: (K, V),
    vecPtr: ManVec<NodePtr>,
}

impl<K, V> Node<K, V> {
    /// The entry of the node.
    pub closed spec fn entry(&self) -> (K, V) {
        self.data
    }

    /// The forward pointers of the node, lowest level first.
    pub closed spec fn pointers(&self) -> Seq<NodePtr> {
        self.vecPtr@
    }

    /// The capacity of the pointer store.
    pub closed spec fn capacity(&self) -> nat {
        self.vecPtr.capacity_of()
    }

    /// The pointer store keeps within its capacity.
    pub closed spec fn wf(&self) -> bool {
        self.vecPtr.wf()
    }

    /// One more pointer fits without the capacity of the store overflowing.
    pub open spec fn has_room(&self) -> bool {
        self.pointers().len() < self.capacity() || self.capacity() == 0 || 2 * self.capacity() <= usize::MAX
    }

    /// The node is well formed and no higher than a node of a skip list
    /// gets: at most `MAX_LEVEL + 1` levels.
    pub closed spec fn bounded(&self) -> bool {
        &&& self.vecPtr.wf()
        &&& self.vecPtr.capacity_of() <= 128
        &&& self.vecPtr@.len() <= MAX_LEVEL + 1
    }

    /// A node holding `data`, with no level yet.
    pub fn new(data: (K, V)) -> (r: Self)
        ensures
            r.entry() == data,
            r.pointers() == Seq::<NodePtr>::empty(),
            r.capacity() == 0,
            r.wf(),
            r.bounded(),
    {
        Node { data, vecPtr: ManVec::new() }
    }

    /// The number of levels of the node.
    pub fn get_level(&self) -> (r: usize)
        ensures
            r == self.pointers().len(),
    {
        self.vecPtr.len()
    }

    /// Points level `index` at `pointer`; `false` if the node has no such level.
    pub fn set_level_pointer(&mut self, index: usize, pointer: NodePtr) -> (r: bool)
        ensures
            r == (index < old(self).pointers().len()),
            r ==> final(self).pointers() == old(self).pointers().update(index as int, pointer),
            !r ==> final(self).pointers() == old(self).pointers(),
            final(self).entry() == old(self).entry(),
            final(self).capacity() == old(self).capacity(),
            old(self).wf() ==> final(self).wf(),
            old(self).bounded() ==> final(self).bounded(),
    {
        match self.vecPtr.get_mut(index) {
            Some(p) => {
                *p = pointer;
                true
            },
            None => false,
        }
    }

    /// The pointer of level `index`; the null pointer if the node has no such level.
    pub fn get_level_pointer(&self, index: usize) -> (r: NodePtr)
        ensures
            index < self.pointers().len() ==> r == self.pointers()[index as int],
            index >= self.pointers().len() ==> r.index() == NULL_INDEX,
    {
        match self.vecPtr.get(index) {
            Some(p) => *p,
            None => NodePtr::new(),
        }
    }

    /// Adds a level on top, pointing at `pointer`.
    #[allow(non_snake_case)]
    pub fn put_newnodePtr(&mut self, pointer: NodePtr)
        requires
            old(self).wf(),
            old(self).has_room(),
        ensures
            final(self).wf(),
            final(self).pointers() == old(self).pointers().push(pointer),
            final(self).entry() == old(self).entry(),
            final(self).capacity() == cap_after_push(old(self).pointers().len(), old(self).capacity()),
            old(self).bounded() && old(self).pointers().len() < MAX_LEVEL + 1 ==> final(self).bounded(),
    {
        self.vecPtr.push(pointer);
    }

    /// Removes the top level, if any.
    pub fn pop(&mut self)
        ensures
            final(self).pointers() == (if old(self).pointers().len() > 0 {
                old(self).pointers().drop_last()
            } else {
                old(self).pointers()
            }),
            final(self).entry() == old(self).entry(),
            final(self).capacity() == old(self).capacity(),
            old(self).wf() ==> final(self).wf(),
            old(self).bounded() ==> final(self).bounded(),
    {
        self.vecPtr.pop();
    }

    /// The key of the node.
    pub fn get_key(&self) -> (r: &K)
        ensures
            *r == self.entry().0,
    {
        &self.data.0
    }

    /// The value of the node.
    pub fn get_value(&self) -> (r: &V)
        ensures
            *r == self.entry().1,
    {
        &self.data.1
    }

    /// The value of the node, to change in place.
    pub fn get_mut_value(&mut self) -> (r: &mut V)
        ensures
            *r == old(self).entry().1,
            final(self).entry() == (old(self).entry().0, *final(r)),
            final(self).pointers() == old(self).pointers(),
            final(self).capacity() == old(self).capacity(),
            old(self).wf() ==> final(self).wf(),
            old(self).bounded() ==> final(self).bounded(),
    {
        &mut self.data.1
    }
}

/// An ordered map kept as a skip list.
///
/// The nodes live in a store; node 0 is the head, whose pointers start each
/// level.  The model is the sequence of entries in key order, `self@`; no key
/// occurs twice.  Each new node gets a random height: one level, plus one for
/// each of `MAX_LEVEL` coin flips that comes up heads.
pub struct SkipList<K, V> {
    nodes: Vec<Node<K, V>>,
    level: usize,
    rng: rand::rngs::ThreadRng,
    free: Vec<usize>,
    order: Ghost<Seq<usize>>,
}

/// The free slots of the node store: unused, distinct, and with the head and
/// the listed nodes they make up the whole store.
pub closed spec fn free_ok<K, V>(nodes: Seq<Node<K, V>>, order: Seq<usize>, free: Seq<usize>) -> bool {
    &&& nodes.len() == 1 + order.len() + free.len()
    &&& free.no_duplicates()
    &&& forall|f: int| 0 <= f < free.len() ==> 1 <= #[trigger] free[f] < nodes.len()
    &&& forall|f: int, p: int| 0 <= f < free.len() && 0 <= p < order.len() ==> #[trigger] free[f] != #[trigger] order[p]
}

/// The entries of the nodes at the positions of `order`, in that order.
pub closed spec fn entries_of<K, V>(nodes: Seq<Node<K, V>>, order: Seq<usize>) -> Seq<(K, V)> {
    Seq::new(order.len(), |p: int| nodes[order[p] as int].data)
}

impl<K, V> View for SkipList<K, V> {
    type V = Seq<(K, V)>;

    closed spec fn view(&self) -> Seq<(K, V)> {
        entries_of(self.nodes@, self.order@)
    }
}

// ----------------------------------------------------------------------
// The shape of a list, over its node store and its order of positions
// ----------------------------------------------------------------------

/// The store index of the node at position `p`; position -1 is the head.
pub closed spec fn idx_at_of(order: Seq<usize>, p: int) -> int {
    if p < 0 {
        0
    } else {
        order[p] as int
    }
}

/// The height of the node at store index `i`.
pub closed spec fn ht_of<K, V>(nodes: Seq<Node<K, V>>, i: int) -> int {
    nodes[i].vecPtr@.len() as int
}

/// The height of the node at position `p`.
pub closed spec fn hp_of<K, V>(nodes: Seq<Node<K, V>>, order: Seq<usize>, p: int) -> int {
    ht_of(nodes, idx_at_of(order, p))
}

/// The pointer of level `l` of the node at store index `i`.
pub closed spec fn ptr_of<K, V>(nodes: Seq<Node<K, V>>, i: int, l: int) -> usize {
    nodes[i].vecPtr@[l].0
}

/// The key of the node at position `p`.
pub closed spec fn kp_of<K: IntKey, V>(nodes: Seq<Node<K, V>>, order: Seq<usize>, p: int) -> int {
    nodes[order[p] as int].data.0.key_int()
}

/// `q` is the next position after `p` that reaches level `l`.
pub closed spec fn is_succ_of<K, V>(nodes: Seq<Node<K, V>>, order: Seq<usize>, p: int, l: int, q: int) -> bool {
    &&& p < q < order.len()
    &&& hp_of(nodes, order, q) > l
    &&& forall|r: int| p < r < q ==> #[trigger] hp_of(nodes, order, r) <= l
}

/// No position after `p` reaches level `l`.
pub closed spec fn no_succ_of<K, V>(nodes: Seq<Node<K, V>>, order: Seq<usize>, p: int, l: int) -> bool {
    forall|q: int| p < q < order.len() ==> #[trigger] hp_of(nodes, order, q) <= l
}

/// The level-`l` pointer of the node at position `p` points at the next node
/// that reaches level `l`, or nowhere if there is none.
pub closed spec fn link_ok_of<K, V>(nodes: Seq<Node<K, V>>, order: Seq<usize>, p: int, l: int) -> bool {
    let v = ptr_of(nodes, idx_at_of(order, p), l);
    ||| v == NULL_INDEX && no_succ_of(nodes, order, p, l)
    ||| exists|q: int| is_succ_of(nodes, order, p, l, q) && order[q] == v
}

/// The node store and the order of positions make a well-formed list.
pub closed spec fn wf_of<K: IntKey, V>(nodes: Seq<Node<K, V>>, level: usize, order: Seq<usize>) -> bool {
    &&& 1 <= nodes.len() < usize::MAX
    &&& level == MAX_LEVEL
    &&& forall|i: int| 0 <= i < nodes.len() ==> #[trigger] nodes[i].bounded()
    &&& forall|p: int| 0 <= p < order.len() ==> 1 <= #[trigger] order[p] < nodes.len()
    &&& forall|p: int| 0 <= p < order.len() ==> 1 <= #[trigger] hp_of(nodes, order, p) <= ht_of(nodes, 0)
    &&& forall|p: int, q: int| 0 <= p < q < order.len() ==> #[trigger] kp_of(nodes, order, p) < #[trigger] kp_of(nodes, order, q)
    &&& forall|p: int, l: int| -1 <= p < order.len() && 0 <= l < hp_of(nodes, order, p) ==> #[trigger] link_ok_of(nodes, order, p, l)
}

/// `nn` is `on` with, from level `from` up, every pointer of a listed node
/// that pointed at node `f` now pointing where `f` points.  Entries and
/// heights stay.
pub closed spec fn rewired<K, V>(on: Seq<Node<K, V>>, nn: Seq<Node<K, V>>, ord: Seq<usize>, f: usize, from: int) -> bool {
    &&& nn.len() == on.len()
    &&& forall|j: int| 0 <= j < on.len() ==> (#[trigger] nn[j]).data == on[j].data && nn[j].vecPtr@.len()
        == on[j].vecPtr@.len() && nn[j].bounded()
    &&& forall|p: int, l: int| -1 <= p < ord.len() && 0 <= l < hp_of(on, ord, p) ==> #[trigger] ptr_of(
        nn,
        idx_at_of(ord, p),
        l,
    ) == (if l >= from && ptr_of(on, idx_at_of(ord, p), l) == f {
        ptr_of(on, f as int, l)
    } else {
        ptr_of(on, idx_at_of(ord, p), l)
    })
}

/// In a well-formed list, distinct positions hold distinct nodes.
proof fn lemma_order_injective<K: IntKey, V>(nodes: Seq<Node<K, V>>, level: usize, order: Seq<usize>, p: int, q: int)
    requires
        wf_of(nodes, level, order),
        0 <= p < order.len(),
        0 <= q < order.len(),
        order[p] == order[q],
    ensures
        p == q,
{
    if p < q {
        assert(kp_of(nodes, order, p) < kp_of(nodes, order, q));
    } else if q < p {
        assert(kp_of(nodes, order, q) < kp_of(nodes, order, p));
    }
}

/// Unlinking the node at position `fpos` at every level leaves a well-formed
/// list without it.
proof fn lemma_unlink_wf<K: IntKey, V>(on: Seq<Node<K, V>>, nn: Seq<Node<K, V>>, level: usize, ord: Seq<usize>, fpos: int)
    requires
        wf_of(on, level, ord),
        0 <= fpos < ord.len(),
        rewired(on, nn, ord, ord[fpos], 0),
    ensures
        wf_of(nn, level, ord.remove(fpos)),
{
    let f = ord[fpos];
    let o2 = ord.remove(fpos);
    let n = ord.len();
    assert forall|j: int| 0 <= j < nn.len() implies #[trigger] nn[j].bounded() by {
        assert(nn[j].bounded());
    }
    assert(ht_of(nn, 0) == ht_of(on, 0)) by {
        assert(nn[0].vecPtr@.len() == on[0].vecPtr@.len());
    }
    // Positions of the new order in the old one.
    assert forall|p: int| -1 <= p < o2.len() implies #[trigger] hp_of(nn, o2, p) == hp_of(on, ord, if p < fpos { p } else { p + 1 }) && idx_at_of(o2, p) == idx_at_of(ord, if p < fpos { p } else { p + 1 }) by {
        let m = if p < fpos { p } else { p + 1 };
        if p >= 0 {
            assert(o2[p] == ord[m]);
            assert(nn[ord[m] as int].vecPtr@.len() == on[ord[m] as int].vecPtr@.len());
        } else {
            assert(nn[0].vecPtr@.len() == on[0].vecPtr@.len());
        }
    }
    assert forall|p: int| 0 <= p < o2.len() implies 1 <= #[trigger] o2[p] < nn.len() by {
        let m = if p < fpos { p } else { p + 1 };
        assert(o2[p] == ord[m]);
    }
    assert forall|p: int| 0 <= p < o2.len() implies 1 <= #[trigger] hp_of(nn, o2, p) <= ht_of(nn, 0) by {
        let m = if p < fpos { p } else { p + 1 };
        assert(hp_of(nn, o2, p) == hp_of(on, ord, m));
    }
    assert forall|p: int| 0 <= p < o2.len() implies #[trigger] kp_of(nn, o2, p) == kp_of(on, ord, if p < fpos { p } else { p + 1 }) by {
        let m = if p < fpos { p } else { p + 1 };
        assert(o2[p] == ord[m]);
        assert(nn[ord[m] as int].data == on[ord[m] as int].data);
    }
    assert forall|p: int, q: int| 0 <= p < q < o2.len() implies #[trigger] kp_of(nn, o2, p) < #[trigger] kp_of(nn, o2, q) by {
        let mp = if p < fpos { p } else { p + 1 };
        let mq = if q < fpos { q } else { q + 1 };
        assert(kp_of(on, ord, mp) < kp_of(on, ord, mq));
    }
    assert forall|p: int, l: int| -1 <= p < o2.len() && 0 <= l < hp_of(nn, o2, p) implies #[trigger] link_ok_of(nn, o2, p, l) by {
        let mp = if p < fpos { p } else { p + 1 };
        assert(hp_of(nn, o2, p) == hp_of(on, ord, mp));
        assert(idx_at_of(o2, p) == idx_at_of(ord, mp));
        assert(link_ok_of(on, ord, mp, l));
        let v0 = ptr_of(on, idx_at_of(ord, mp), l);
        let v = ptr_of(nn, idx_at_of(o2, p), l);
        assert(v == (if v0 == f { ptr_of(on, f as int, l) } else { v0 }));
        if v0 == f {
            // The old successor was the unlinked node; its successor takes its place.
            let q0 = choose|q: int| is_succ_of(on, ord, mp, l, q) && ord[q] == v0;
            lemma_order_injective(on, level, ord, q0, fpos);
            assert(q0 == fpos);
            assert(hp_of(on, ord, fpos) > l);
            assert(link_ok_of(on, ord, fpos, l));
            assert(idx_at_of(ord, fpos) == f);
            if ptr_of(on, f as int, l) == NULL_INDEX && no_succ_of(on, ord, fpos, l) {
                assert forall|q: int| p < q < o2.len() implies #[trigger] hp_of(nn, o2, q) <= l by {
                    let mq = if q < fpos { q } else { q + 1 };
                    assert(hp_of(nn, o2, q) == hp_of(on, ord, mq));
                    if mq < fpos {
                        assert(hp_of(on, ord, mq) <= l);
                    } else {
                        assert(hp_of(on, ord, mq) <= l);
                    }
                }
                assert(no_succ_of(nn, o2, p, l));
            } else {
                let q2 = choose|q: int| is_succ_of(on, ord, fpos, l, q) && ord[q] == ptr_of(on, f as int, l);
                let w = q2 - 1;
                assert(o2[w] == ord[q2]);
                assert(hp_of(nn, o2, w) == hp_of(on, ord, q2));
                assert forall|r: int| p < r < w implies #[trigger] hp_of(nn, o2, r) <= l by {
                    let mr = if r < fpos { r } else { r + 1 };
                    assert(hp_of(nn, o2, r) == hp_of(on, ord, mr));
                    if mr < fpos {
                        assert(hp_of(on, ord, mr) <= l);
                    } else {
                        assert(hp_of(on, ord, mr) <= l);
                    }
                }
                assert(is_succ_of(nn, o2, p, l, w));
            }
        } else {
            if v0 == NULL_INDEX && no_succ_of(on, ord, mp, l) {
                assert forall|q: int| p < q < o2.len() implies #[trigger] hp_of(nn, o2, q) <= l by {
                    let mq = if q < fpos { q } else { q + 1 };
                    assert(hp_of(nn, o2, q) == hp_of(on, ord, mq));
                    assert(hp_of(on, ord, mq) <= l);
                }
                assert(no_succ_of(nn, o2, p, l));
            } else {
                let q0 = choose|q: int| is_succ_of(on, ord, mp, l, q) && ord[q] == v0;
                assert(q0 != fpos);
                let w = if q0 < fpos { q0 } else { q0 - 1 };
                assert(o2[w] == ord[q0]);
                assert(hp_of(nn, o2, w) == hp_of(on, ord, q0));
                assert forall|r: int| p < r < w implies #[trigger] hp_of(nn, o2, r) <= l by {
                    let mr = if r < fpos { r } else { r + 1 };
                    assert(hp_of(nn, o2, r) == hp_of(on, ord, mr));
                    assert(hp_of(on, ord, mr) <= l);
                }
                assert(is_succ_of(nn, o2, p, l, w));
            }
        }
    }
}

/// In a well-formed list, a node is the next one at level `l` of one position at most.
proof fn lemma_pred_unique<K: IntKey, V>(nodes: Seq<Node<K, V>>, level: usize, order: Seq<usize>, p: int, r: int, l: int, q: int)
    requires
        wf_of(nodes, level, order),
        is_succ_of(nodes, order, p, l, q),
        is_succ_of(nodes, order, r, l, q),
        -1 <= p,
        -1 <= r,
        hp_of(nodes, order, p) > l,
        hp_of(nodes, order, r) > l,
    ensures
        p == r,
{
    if p < r {
        assert(hp_of(nodes, order, r) <= l);
    } else if r < p {
        assert(hp_of(nodes, order, p) <= l);
    }
}

/// Distinct positions (the head included) hold distinct nodes.
proof fn lemma_idx_injective<K: IntKey, V>(nodes: Seq<Node<K, V>>, level: usize, order: Seq<usize>, p: int, q: int)
    requires
        wf_of(nodes, level, order),
        -1 <= p < order.len(),
        -1 <= q < order.len(),
        idx_at_of(order, p) == idx_at_of(order, q),
    ensures
        p == q,
{
    if p >= 0 && q >= 0 {
        lemma_order_injective(nodes, level, order, p, q);
    } else if p >= 0 {
        assert(order[p] >= 1);
    } else if q >= 0 {
        assert(order[q] >= 1);
    }
}

/// Rewiring level `l` where no listed pointer points at `f`.
proof fn lemma_rewire_skip<K: IntKey, V>(on: Seq<Node<K, V>>, nn: Seq<Node<K, V>>, level: usize, ord: Seq<usize>, f: usize, fpos: int, l: int)
    requires
        wf_of(on, level, ord),
        0 <= fpos < ord.len(),
        f == ord[fpos],
        hp_of(on, ord, fpos) <= l,
        rewired(on, nn, ord, f, l + 1),
    ensures
        rewired(on, nn, ord, f, l),
{
    assert forall|p: int, m: int| -1 <= p < ord.len() && 0 <= m < hp_of(on, ord, p) && m == l implies ptr_of(on, idx_at_of(ord, p), m) != f by {
        assert(link_ok_of(on, ord, p, m));
        if ptr_of(on, idx_at_of(ord, p), m) == f {
            let q = choose|q: int| is_succ_of(on, ord, p, m, q) && ord[q] == ptr_of(on, idx_at_of(ord, p), m);
            lemma_order_injective(on, level, ord, q, fpos);
        }
    }
    assert forall|p: int, m: int| -1 <= p < ord.len() && 0 <= m < hp_of(on, ord, p) implies #[trigger] ptr_of(nn, idx_at_of(ord, p), m)
        == (if m >= l && ptr_of(on, idx_at_of(ord, p), m) == f {
        ptr_of(on, f as int, m)
    } else {
        ptr_of(on, idx_at_of(ord, p), m)
    }) by {
        assert(ptr_of(nn, idx_at_of(ord, p), m) == (if m >= l + 1 && ptr_of(on, idx_at_of(ord, p), m) == f {
            ptr_of(on, f as int, m)
        } else {
            ptr_of(on, idx_at_of(ord, p), m)
        }));
    }
}

/// Rewiring level `l` by pointing the predecessor of `f` past it.
proof fn lemma_rewire_step<K: IntKey, V>(
    on: Seq<Node<K, V>>,
    nb: Seq<Node<K, V>>,
    na: Seq<Node<K, V>>,
    level: usize,
    ord: Seq<usize>,
    fpos: int,
    ppos: int,
    l: int,
)
    requires
        wf_of(on, level, ord),
        0 <= fpos < ord.len(),
        -1 <= ppos,
        0 <= l,
        hp_of(on, ord, ppos) > l,
        is_succ_of(on, ord, ppos, l, fpos),
        rewired(on, nb, ord, ord[fpos], l + 1),
        na.len() == nb.len(),
        forall|j: int| 0 <= j < nb.len() && j != idx_at_of(ord, ppos) ==> na[j] == nb[j],
        na[idx_at_of(ord, ppos)].data == nb[idx_at_of(ord, ppos)].data,
        na[idx_at_of(ord, ppos)].bounded(),
        na[idx_at_of(ord, ppos)].vecPtr@ == nb[idx_at_of(ord, ppos)].vecPtr@.update(l, NodePtr(ptr_of(on, ord[fpos] as int, l))),
    ensures
        rewired(on, na, ord, ord[fpos], l),
{
    let f = ord[fpos];
    let pi = idx_at_of(ord, ppos);
    assert(ppos < ord.len());
    assert(link_ok_of(on, ord, ppos, l));
    assert(ptr_of(on, pi, l) == f) by {
        if ptr_of(on, pi, l) == NULL_INDEX && no_succ_of(on, ord, ppos, l) {
            assert(hp_of(on, ord, fpos) <= l);
        } else {
            let q = choose|q: int| is_succ_of(on, ord, ppos, l, q) && ord[q] == ptr_of(on, pi, l);
            if q < fpos {
                assert(hp_of(on, ord, q) <= l);
            } else if fpos < q {
                assert(hp_of(on, ord, fpos) <= l);
            }
        }
    }
    assert forall|j: int| 0 <= j < on.len() implies (#[trigger] na[j]).data == on[j].data && na[j].vecPtr@.len()
        == on[j].vecPtr@.len() && na[j].bounded() by {
        assert(nb[j].data == on[j].data);
    }
    assert forall|p: int, m: int| -1 <= p < ord.len() && 0 <= m < hp_of(on, ord, p) implies #[trigger] ptr_of(na, idx_at_of(ord, p), m)
        == (if m >= l && ptr_of(on, idx_at_of(ord, p), m) == f {
        ptr_of(on, f as int, m)
    } else {
        ptr_of(on, idx_at_of(ord, p), m)
    }) by {
        let ip = idx_at_of(ord, p);
        assert(ptr_of(nb, ip, m) == (if m >= l + 1 && ptr_of(on, ip, m) == f {
            ptr_of(on, f as int, m)
        } else {
            ptr_of(on, ip, m)
        }));
        if ip == pi {
            lemma_idx_injective(on, level, ord, p, ppos);
        } else {
            if m == l && ptr_of(on, ip, m) == f {
                assert(link_ok_of(on, ord, p, m));
                let q = choose|q: int| is_succ_of(on, ord, p, m, q) && ord[q] == ptr_of(on, ip, m);
                lemma_order_injective(on, level, ord, q, fpos);
                lemma_pred_unique(on, level, ord, p, ppos, l, fpos);
            }
        }
    }
}

/// Dropping an empty top level of the head keeps a list well formed.
proof fn lemma_pop_head<K: IntKey, V>(nodes: Seq<Node<K, V>>, nn: Seq<Node<K, V>>, level: usize, ord: Seq<usize>)
    requires
        wf_of(nodes, level, ord),
        ht_of(nodes, 0) > 0,
        ptr_of(nodes, 0, ht_of(nodes, 0) - 1) == NULL_INDEX,
        nn.len() == nodes.len(),
        forall|j: int| 0 < j < nodes.len() ==> nn[j] == nodes[j],
        nn[0].data == nodes[0].data,
        nn[0].bounded(),
        nn[0].vecPtr@ == nodes[0].vecPtr@.drop_last(),
    ensures
        wf_of(nn, level, ord),
{
    let top = ht_of(nodes, 0) - 1;
    assert(link_ok_of(nodes, ord, -1, top));
    assert(no_succ_of(nodes, ord, -1, top));
    assert forall|j: int| 0 <= j < nn.len() implies #[trigger] nn[j].bounded() by {
        if j > 0 {
            assert(nodes[j].bounded());
        }
    }
    assert forall|p: int| 0 <= p < ord.len() implies #[trigger] hp_of(nn, ord, p) == hp_of(nodes, ord, p) && kp_of(nn, ord, p) == kp_of(nodes, ord, p) by {
        assert(ord[p] >= 1);
        assert(nn[ord[p] as int] == nodes[ord[p] as int]);
    }
    assert forall|p: int| 0 <= p < ord.len() implies 1 <= #[trigger] hp_of(nn, ord, p) <= ht_of(nn, 0) by {
        assert(hp_of(nodes, ord, p) <= top);
    }
    assert forall|p: int, q: int| 0 <= p < q < ord.len() implies #[trigger] kp_of(nn, ord, p) < #[trigger] kp_of(nn, ord, q) by {
        assert(kp_of(nodes, ord, p) < kp_of(nodes, ord, q));
    }
    assert forall|p: int, l: int| -1 <= p < ord.len() && 0 <= l < hp_of(nn, ord, p) implies #[trigger] link_ok_of(nn, ord, p, l) by {
        assert(link_ok_of(nodes, ord, p, l));
        if p >= 0 {
            assert(ord[p] >= 1);
            assert(nn[ord[p] as int] == nodes[ord[p] as int]);
        }
        assert(ptr_of(nn, idx_at_of(ord, p), l) == ptr_of(nodes, idx_at_of(ord, p), l));
        if ptr_of(nodes, idx_at_of(ord, p), l) == NULL_INDEX && no_succ_of(nodes, ord, p, l) {
            assert forall|q: int| p < q < ord.len() implies #[trigger] hp_of(nn, ord, q) <= l by {
                assert(hp_of(nodes, ord, q) <= l);
            }
        } else {
            let q = choose|q: int| is_succ_of(nodes, ord, p, l, q) && ord[q] == ptr_of(nodes, idx_at_of(ord, p), l);
            assert forall|r: int| p < r < q implies #[trigger] hp_of(nn, ord, r) <= l by {
                assert(hp_of(nodes, ord, r) <= l);
            }
            assert(is_succ_of(nn, ord, p, l, q));
        }
    }
}

/// `pp` is the last position before `pos` that reaches level `l` (the head,
/// -1, reaches every level).
pub closed spec fn is_pred_of<K, V>(nodes: Seq<Node<K, V>>, order: Seq<usize>, pos: int, l: int, pp: int) -> bool {
    &&& -1 <= pp < pos
    &&& hp_of(nodes, order, pp) > l
    &&& forall|r: int| pp < r < pos ==> #[trigger] hp_of(nodes, order, r) <= l
}

/// The entry of `path` for level `l` (the path lists the top level first) is
/// the predecessor of position `pos` at that level.
pub closed spec fn path_ok<K, V>(nodes: Seq<Node<K, V>>, order: Seq<usize>, pos: int, path: Seq<NodePtr>, l: int) -> bool {
    exists|pp: int| #[trigger] is_pred_of(nodes, order, pos, l, pp) && path[ht_of(nodes, 0) - 1 - l].0 == idx_at_of(order, pp)
}

/// Splicing a new node `idx` of height `tc` in at position `pos`, after the
/// predecessors listed in `path` (top level first), leaves a well-formed list.
proof fn lemma_splice_wf<K: IntKey, V>(
    on: Seq<Node<K, V>>,
    nn: Seq<Node<K, V>>,
    level: usize,
    ord: Seq<usize>,
    pos: int,
    idx: usize,
    tc: int,
    path: Seq<NodePtr>,
)
    requires
        wf_of(on, level, ord),
        0 <= pos <= ord.len(),
        forall|p: int| 0 <= p < pos ==> #[trigger] kp_of(on, ord, p) < nn[idx as int].data.0.key_int(),
        forall|p: int| pos <= p < ord.len() ==> #[trigger] kp_of(on, ord, p) > nn[idx as int].data.0.key_int(),
        path.len() == ht_of(on, 0),
        forall|l: int| 0 <= l < ht_of(on, 0) ==> #[trigger] path_ok(on, ord, pos, path, l),
        1 <= idx < nn.len() < usize::MAX,
        nn.len() >= on.len(),
        forall|p: int| 0 <= p < ord.len() ==> #[trigger] ord[p] != idx,
        1 <= tc <= MAX_LEVEL + 1,
        nn[idx as int].vecPtr@.len() == tc,
        forall|l: int| 0 <= l < tc ==> #[trigger] ptr_of(nn, idx as int, l) == (if l < ht_of(on, 0) {
            ptr_of(on, path[ht_of(on, 0) - 1 - l].0 as int, l)
        } else {
            NULL_INDEX
        }),
        nn[0].vecPtr@.len() == (if tc > ht_of(on, 0) { tc } else { ht_of(on, 0) }),
        forall|l: int| ht_of(on, 0) <= l < tc ==> #[trigger] ptr_of(nn, 0, l) == idx,
        forall|p: int, l: int| -1 <= p < ord.len() && 0 <= l < hp_of(on, ord, p) ==> #[trigger] ptr_of(nn, idx_at_of(ord, p), l)
            == (if l < tc && l < ht_of(on, 0) && idx_at_of(ord, p) == path[ht_of(on, 0) - 1 - l].0 {
            idx
        } else {
            ptr_of(on, idx_at_of(ord, p), l)
        }),
        forall|j: int| 0 <= j < nn.len() ==> #[trigger] nn[j].bounded(),
        forall|j: int| 1 <= j < on.len() && j != idx ==> #[trigger] nn[j].data == on[j].data && nn[j].vecPtr@.len() == on[j].vecPtr@.len(),
    ensures
        wf_of(nn, level, ord.insert(pos, idx)),
{
    let top = ht_of(on, 0);
    let o2 = ord.insert(pos, idx);
    let knew = nn[idx as int].data.0.key_int();
    assert forall|p: int| 0 <= p < o2.len() implies 1 <= #[trigger] o2[p] < nn.len() by {
        if p < pos {
            assert(o2[p] == ord[p]);
        } else if p > pos {
            assert(o2[p] == ord[p - 1]);
        }
    }
    // Heights and keys of the new positions.
    assert forall|p: int| -1 <= p < o2.len() && p != pos implies #[trigger] hp_of(nn, o2, p) == (if p == -1 { if tc > top { tc } else { top } } else { hp_of(on, ord, if p < pos { p } else { p - 1 }) }) && idx_at_of(o2, p) == idx_at_of(ord, if p < pos { p } else { p - 1 }) by {
        if p >= 0 {
            let m = if p < pos { p } else { p - 1 };
            assert(o2[p] == ord[m]);
            assert(ord[m] != idx);
            assert(1 <= ord[m] < on.len());
            assert(nn[ord[m] as int].data == on[ord[m] as int].data);
        }
    }
    assert(hp_of(nn, o2, pos) == tc) by {
        assert(o2[pos] == idx);
    }
    assert forall|p: int| 0 <= p < o2.len() implies #[trigger] kp_of(nn, o2, p) == (if p == pos { knew } else { kp_of(on, ord, if p < pos { p } else { p - 1 }) }) by {
        if p != pos {
            let m = if p < pos { p } else { p - 1 };
            assert(o2[p] == ord[m]);
            assert(ord[m] != idx);
            assert(1 <= ord[m] < on.len());
            assert(nn[ord[m] as int].data == on[ord[m] as int].data);
        } else {
            assert(o2[p] == idx);
        }
    }
    assert forall|p: int| 0 <= p < o2.len() implies 1 <= #[trigger] hp_of(nn, o2, p) <= ht_of(nn, 0) by {
        if p != pos {
            let m = if p < pos { p } else { p - 1 };
            assert(hp_of(on, ord, m) <= top);
        }
    }
    assert forall|p: int, q: int| 0 <= p < q < o2.len() implies #[trigger] kp_of(nn, o2, p) < #[trigger] kp_of(nn, o2, q) by {
        let mp = if p < pos { p } else { p - 1 };
        let mq = if q < pos { q } else { q - 1 };
        if p != pos && q != pos {
            assert(kp_of(on, ord, mp) < kp_of(on, ord, mq));
        }
    }
    assert forall|p: int, l: int| -1 <= p < o2.len() && 0 <= l < hp_of(nn, o2, p) implies #[trigger] link_ok_of(nn, o2, p, l) by {
        if p == pos {
            // The new node.
            assert(idx_at_of(o2, pos) == idx);
            if l < top {
                assert(path_ok(on, ord, pos, path, l));
                let pp = choose|pp: int| #[trigger] is_pred_of(on, ord, pos, l, pp) && path[top - 1 - l].0 == idx_at_of(ord, pp);
                assert(link_ok_of(on, ord, pp, l));
                let v0 = ptr_of(on, idx_at_of(ord, pp), l);
                assert(ptr_of(nn, idx as int, l) == v0);
                if v0 == NULL_INDEX && no_succ_of(on, ord, pp, l) {
                    assert forall|q: int| pos < q < o2.len() implies #[trigger] hp_of(nn, o2, q) <= l by {
                        assert(hp_of(nn, o2, q) == hp_of(on, ord, q - 1));
                        assert(hp_of(on, ord, q - 1) <= l);
                    }
                    assert(no_succ_of(nn, o2, pos, l));
                } else {
                    let q = choose|q: int| is_succ_of(on, ord, pp, l, q) && ord[q] == v0;
                    if q < pos {
                        assert(hp_of(on, ord, q) <= l);
                    }
                    assert(o2[q + 1] == ord[q]);
                    assert(hp_of(nn, o2, q + 1) == hp_of(on, ord, q));
                    assert forall|r: int| pos < r < q + 1 implies #[trigger] hp_of(nn, o2, r) <= l by {
                        assert(hp_of(nn, o2, r) == hp_of(on, ord, r - 1));
                        assert(hp_of(on, ord, r - 1) <= l);
                    }
                    assert(is_succ_of(nn, o2, pos, l, q + 1));
                }
            } else {
                assert(ptr_of(nn, idx as int, l) == NULL_INDEX);
                assert forall|q: int| pos < q < o2.len() implies #[trigger] hp_of(nn, o2, q) <= l by {
                    assert(hp_of(nn, o2, q) == hp_of(on, ord, q - 1));
                    assert(hp_of(on, ord, q - 1) <= top);
                }
                assert(no_succ_of(nn, o2, pos, l));
            }
        } else {
            let m = if p < pos { p } else { p - 1 };
            let im = idx_at_of(ord, m);
            assert(idx_at_of(o2, p) == im);
            if p == -1 && l >= top {
                // A level that only the new node reaches.
                assert(ptr_of(nn, 0, l) == idx);
                assert forall|r: int| -1 < r < pos implies #[trigger] hp_of(nn, o2, r) <= l by {
                    assert(hp_of(nn, o2, r) == hp_of(on, ord, r));
                    assert(hp_of(on, ord, r) <= top);
                }
                assert(o2[pos] == idx);
                assert(is_succ_of(nn, o2, p, l, pos));
            } else {
                if p == -1 {
                    assert(l < top);
                } else {
                    assert(hp_of(nn, o2, p) == hp_of(on, ord, m));
                }
                assert(l < hp_of(on, ord, m));
                assert(link_ok_of(on, ord, m, l));
                let v0 = ptr_of(on, im, l);
                if l < tc && l < top && im == path[top - 1 - l].0 {
                    // The predecessor of the new node at level l.
                    assert(path_ok(on, ord, pos, path, l));
                let pp = choose|pp: int| #[trigger] is_pred_of(on, ord, pos, l, pp) && path[top - 1 - l].0 == idx_at_of(ord, pp);
                    lemma_idx_injective(on, level, ord, m, pp);
                    assert(ptr_of(nn, im, l) == idx);
                    assert forall|r: int| p < r < pos implies #[trigger] hp_of(nn, o2, r) <= l by {
                        assert(hp_of(nn, o2, r) == hp_of(on, ord, r));
                    }
                    assert(o2[pos] == idx);
                    assert(is_succ_of(nn, o2, p, l, pos));
                } else {
                    assert(ptr_of(nn, im, l) == v0);
                    if l < tc && l < top {
                        assert(path_ok(on, ord, pos, path, l));
                let pp = choose|pp: int| #[trigger] is_pred_of(on, ord, pos, l, pp) && path[top - 1 - l].0 == idx_at_of(ord, pp);
                        assert(m != pp);
                        if m < pos {
                            // m is before pp, so its successor is no later than pp.
                            assert(m < pp) by {
                                if pp < m {
                                    assert(hp_of(on, ord, m) <= l);
                                }
                            }
                        }
                    }
                    if v0 == NULL_INDEX && no_succ_of(on, ord, m, l) {
                        if l < tc && l < top && m < pos {
                            assert(path_ok(on, ord, pos, path, l));
                let pp = choose|pp: int| #[trigger] is_pred_of(on, ord, pos, l, pp) && path[top - 1 - l].0 == idx_at_of(ord, pp);
                            assert(hp_of(on, ord, pp) <= l);
                        }
                        assert forall|q: int| p < q < o2.len() implies #[trigger] hp_of(nn, o2, q) <= l by {
                            if q != pos {
                                let mq = if q < pos { q } else { q - 1 };
                                assert(hp_of(nn, o2, q) == hp_of(on, ord, mq));
                                assert(hp_of(on, ord, mq) <= l);
                            }
                        }
                        assert(no_succ_of(nn, o2, p, l));
                    } else {
                        let q = choose|q: int| is_succ_of(on, ord, m, l, q) && ord[q] == v0;
                        if l < tc && l < top && m < pos {
                            assert(path_ok(on, ord, pos, path, l));
                let pp = choose|pp: int| #[trigger] is_pred_of(on, ord, pos, l, pp) && path[top - 1 - l].0 == idx_at_of(ord, pp);
                            if pp < q {
                                assert(hp_of(on, ord, pp) <= l);
                            }
                        }
                        let w = if q < pos { q } else { q + 1 };
                        assert(o2[w] == ord[q]);
                        assert(hp_of(nn, o2, w) == hp_of(on, ord, q));
                        assert forall|r: int| p < r < w implies #[trigger] hp_of(nn, o2, r) <= l by {
                            if r != pos {
                                let mr = if r < pos { r } else { r - 1 };
                                assert(hp_of(nn, o2, r) == hp_of(on, ord, mr));
                                assert(hp_of(on, ord, mr) <= l);
                            }
                        }
                        assert(is_succ_of(nn, o2, p, l, w));
                    }
                }
            }
        }
    }
}

/// Changing nodes off the list, or the values of listed nodes, keeps a list
/// well formed: heights, keys and pointers of the head and the listed nodes
/// stay.
proof fn lemma_frame<K: IntKey, V>(on: Seq<Node<K, V>>, nn: Seq<Node<K, V>>, level: usize, ord: Seq<usize>)
    requires
        wf_of(on, level, ord),
        on.len() <= nn.len() < usize::MAX,
        forall|j: int| 0 <= j < nn.len() ==> #[trigger] nn[j].bounded(),
        nn[0].vecPtr@ == on[0].vecPtr@,
        forall|p: int|
            0 <= p < ord.len() ==> #[trigger] nn[ord[p] as int].vecPtr@ == on[ord[p] as int].vecPtr@
                && nn[ord[p] as int].data.0.key_int() == on[ord[p] as int].data.0.key_int(),
    ensures
        wf_of(nn, level, ord),
        ht_of(nn, 0) == ht_of(on, 0),
        forall|p: int| -1 <= p < ord.len() ==> #[trigger] hp_of(nn, ord, p) == hp_of(on, ord, p),
{
    assert forall|p: int| -1 <= p < ord.len() implies #[trigger] hp_of(nn, ord, p) == hp_of(on, ord, p) && nn[idx_at_of(ord, p)].vecPtr@ == on[idx_at_of(ord, p)].vecPtr@ by {
        if p >= 0 {
            assert(nn[ord[p] as int].vecPtr@ == on[ord[p] as int].vecPtr@);
        }
    }
    assert forall|p: int| 0 <= p < ord.len() implies #[trigger] kp_of(nn, ord, p) == kp_of(on, ord, p) by {
        assert(nn[ord[p] as int].vecPtr@ == on[ord[p] as int].vecPtr@);
        assert(nn[ord[p] as int].data.0.key_int() == on[ord[p] as int].data.0.key_int());
    }
    assert forall|p: int| 0 <= p < ord.len() implies 1 <= #[trigger] hp_of(nn, ord, p) <= ht_of(nn, 0) by {
        assert(hp_of(nn, ord, -1) == hp_of(on, ord, -1));
    }
    assert forall|p: int, q: int| 0 <= p < q < ord.len() implies #[trigger] kp_of(nn, ord, p) < #[trigger] kp_of(nn, ord, q) by {
        assert(kp_of(on, ord, p) < kp_of(on, ord, q));
    }
    assert forall|p: int, l: int| -1 <= p < ord.len() && 0 <= l < hp_of(nn, ord, p) implies #[trigger] link_ok_of(nn, ord, p, l) by {
        assert(hp_of(nn, ord, p) == hp_of(on, ord, p));
        assert(link_ok_of(on, ord, p, l));
        assert(ptr_of(nn, idx_at_of(ord, p), l) == ptr_of(on, idx_at_of(ord, p), l));
        if ptr_of(on, idx_at_of(ord, p), l) == NULL_INDEX && no_succ_of(on, ord, p, l) {
            assert forall|q: int| p < q < ord.len() implies #[trigger] hp_of(nn, ord, q) <= l by {
                assert(hp_of(on, ord, q) <= l);
            }
        } else {
            let q = choose|q: int| is_succ_of(on, ord, p, l, q) && ord[q] == ptr_of(on, idx_at_of(ord, p), l);
            assert(hp_of(nn, ord, q) == hp_of(on, ord, q));
            assert forall|r: int| p < r < q implies #[trigger] hp_of(nn, ord, r) <= l by {
                assert(hp_of(on, ord, r) <= l);
            }
            assert(is_succ_of(nn, ord, p, l, q));
        }
    }
    assert(hp_of(nn, ord, -1) == hp_of(on, ord, -1));
}

/// A path of predecessors stays a path when the heights of the head and of
/// the listed nodes stay.
proof fn lemma_path_frame<K, V>(on: Seq<Node<K, V>>, nn: Seq<Node<K, V>>, ord: Seq<usize>, pos: int, path: Seq<NodePtr>, l: int)
    requires
        path_ok(on, ord, pos, path, l),
        pos <= ord.len(),
        ht_of(nn, 0) == ht_of(on, 0),
        forall|p: int| -1 <= p < ord.len() ==> #[trigger] hp_of(nn, ord, p) == hp_of(on, ord, p),
    ensures
        path_ok(nn, ord, pos, path, l),
{
    let pp = choose|pp: int| #[trigger] is_pred_of(on, ord, pos, l, pp) && path[ht_of(on, 0) - 1 - l].0 == idx_at_of(ord, pp);
    assert(hp_of(nn, ord, pp) == hp_of(on, ord, pp));
    assert forall|r: int| pp < r < pos implies #[trigger] hp_of(nn, ord, r) <= l by {
        assert(hp_of(on, ord, r) <= l);
    }
    assert(is_pred_of(nn, ord, pos, l, pp));
}

/// Giving a listed node a new value keeps the list well formed, and changes
/// the entries at its position only.
proof fn lemma_value_update<K: IntKey, V>(on: Seq<Node<K, V>>, level: usize, ord: Seq<usize>, fpos: int)
    requires
        wf_of(on, level, ord),
        0 <= fpos < ord.len(),
    ensures
        forall|nn: Seq<Node<K, V>>|
            nn.len() == on.len() && (forall|j: int| 0 <= j < on.len() && j != ord[fpos] ==> nn[j] == on[j])
                && nn[ord[fpos] as int].vecPtr@ == on[ord[fpos] as int].vecPtr@ && nn[ord[fpos] as int].data.0
                == on[ord[fpos] as int].data.0 && nn[ord[fpos] as int].bounded() ==> #[trigger] wf_of(nn, level, ord)
                && entries_of(nn, ord) == entries_of(on, ord).update(fpos, (on[ord[fpos] as int].data.0, nn[ord[fpos] as int].data.1)),
{
    let f = ord[fpos] as int;
    assert forall|nn: Seq<Node<K, V>>|
        nn.len() == on.len() && (forall|j: int| 0 <= j < on.len() && j != ord[fpos] ==> nn[j] == on[j])
            && nn[f].vecPtr@ == on[f].vecPtr@ && nn[f].data.0 == on[f].data.0 && nn[f].bounded() implies #[trigger] wf_of(nn, level, ord)
            && entries_of(nn, ord) == entries_of(on, ord).update(fpos, (on[f].data.0, nn[f].data.1)) by {
        assert forall|j: int| 0 <= j < nn.len() implies #[trigger] nn[j].bounded() by {
            if j != f {
                assert(on[j].bounded());
            }
        }
        assert forall|p: int| 0 <= p < ord.len() implies #[trigger] nn[ord[p] as int].vecPtr@ == on[ord[p] as int].vecPtr@
            && nn[ord[p] as int].data.0.key_int() == on[ord[p] as int].data.0.key_int() by {
        }
        assert(1 <= f);
        assert(nn[0] == on[0]);
        lemma_frame(on, nn, level, ord);
        assert forall|p: int| 0 <= p < ord.len() implies #[trigger] entries_of(nn, ord)[p] == entries_of(on, ord).update(fpos, (on[f].data.0, nn[f].data.1))[p] by {
            if p != fpos && ord[p] as int == f {
                lemma_order_injective(on, level, ord, p, fpos);
            }
        }
        assert(entries_of(nn, ord) =~= entries_of(on, ord).update(fpos, (on[f].data.0, nn[f].data.1)));
    }
}

/// What a search for the place of a key finds.
enum PathSearch {
    /// The store index of the node that holds the key.
    Found(usize),
    /// The key is absent: the node after which it belongs at each level of
    /// the head, top level first.
    Path(ManVec<NodePtr>),
}

impl<K: IntKey, V> SkipList<K, V> {
    // ------------------------------------------------------------------
    // The shape of the list
    // ------------------------------------------------------------------

    /// The number of entries.
    closed spec fn n(&self) -> int {
        self.order@.len() as int
    }

    /// The store index of the node at position `p`.
    closed spec fn idx_at(&self, p: int) -> int {
        idx_at_of(self.order@, p)
    }

    /// The height of the node at store index `i`.
    closed spec fn ht(&self, i: int) -> int {
        ht_of(self.nodes@, i)
    }

    /// The height of the node at position `p`.
    closed spec fn hp(&self, p: int) -> int {
        hp_of(self.nodes@, self.order@, p)
    }

    /// The key of the node at position `p`.
    closed spec fn kp(&self, p: int) -> int {
        kp_of(self.nodes@, self.order@, p)
    }

    /// `q` is the next position after `p` that reaches level `l`.
    closed spec fn is_succ(&self, p: int, l: int, q: int) -> bool {
        is_succ_of(self.nodes@, self.order@, p, l, q)
    }

    /// No position after `p` reaches level `l`.
    closed spec fn no_succ(&self, p: int, l: int) -> bool {
        no_succ_of(self.nodes@, self.order@, p, l)
    }

    /// The level-`l` pointer of position `p` is right.
    closed spec fn link_ok(&self, p: int, l: int) -> bool {
        link_ok_of(self.nodes@, self.order@, p, l)
    }

    /// The list is well formed.
    pub closed spec fn wf(&self) -> bool {
        &&& wf_of(self.nodes@, self.level, self.order@)
        &&& free_ok(self.nodes@, self.order@, self.free@)
    }

    /// The entries of a well-formed list are those of its positions, with
    /// strictly increasing keys.
    proof fn lemma_view(&self)
        requires
            self.wf(),
        ensures
            self@.len() == self.n(),
            forall|p: int| 0 <= p < self.n() ==> #[trigger] self@[p].0.key_int() == self.kp(p),
            keys_strict(self@),
    {
        assert forall|i: int, j: int| 0 <= i < j < self@.len() implies self@[i].0.key_int() < self@[j].0.key_int() by {
            assert(self.kp(i) < self.kp(j));
        }
    }


    /// Two lists hold the same nodes in the same order.
    pub closed spec fn same_list(&self, other: &Self) -> bool {
        &&& self.nodes@ == other.nodes@
        &&& self.level == other.level
        &&& self.order@ == other.order@
        &&& self.free@ == other.free@
    }

    /// Lists with the same nodes and order have the same entries.
    proof fn lemma_same_list(&self, other: &Self)
        requires
            self.same_list(other),
        ensures
            self@ == other@,
            self.wf() == other.wf(),
    {
        assert(self@ =~= other@);
    }

    /// Flips a coin with the list's random number generator: heads when the
    /// number drawn is odd (`coin_of` of that number).
    #[allow(non_snake_case)]
    pub fn flipCoin(&mut self) -> (r: bool)
        ensures
            final(self).same_list(old(self)),
            final(self)@ == old(self)@,
            old(self).wf() ==> final(self).wf(),
    {
        let ghost g = *self;
        let rand: u32 = random_u32(&mut self.rng);
        proof {
            self.lemma_same_list(&g);
        }
        coin_of(rand)
    }

    /// The value under key `k`, if any.
    pub fn find(&self, k: &K) -> (r: Option<&V>)
        requires
            self.wf(),
        ensures
            r.is_some() == has_key(self@, k.key_int()),
            r.is_some() ==> *r.unwrap() == self@[first_index(self@, k.key_int())].1,
    {
        let ghost kk = k.key_int();
        proof {
            self.lemma_view();
        }
        let top = self.nodes[0].get_level();
        let mut prev: usize = 0;
        let ghost mut ppos: int = -1;
        let mut i: usize = top;
        while i > 0
            invariant
                self.wf(),
                kk == k.key_int(),
                top == self.ht(0),
                i <= top,
                -1 <= ppos < self.n(),
                prev == self.idx_at(ppos),
                ppos >= 0 ==> self.kp(ppos) < kk,
                self.hp(ppos) >= i,
                forall|q: int| ppos < q < self.n() && #[trigger] self.hp(q) > i ==> self.kp(q) > kk,
            decreases i,
        {
            i = i - 1;
            proof {
                assert(self.link_ok(ppos, i as int));
            }
            let cur0 = self.nodes[prev].get_level_pointer(i);
            if cur0.is_null() {
                continue;
            }
            let ghost q0 = choose|q: int| self.is_succ(ppos, i as int, q) && self.order@[q] == cur0.index();
            let mut cur: usize = cur0.0;
            let ghost mut cpos: int = q0;
            if k.key_lt(self.nodes[cur].get_key()) {
                proof {
                    assert(self.kp(cpos) > kk);
                    assert forall|q: int| ppos < q < self.n() && #[trigger] self.hp(q) > i implies self.kp(q) > kk by {
                        if q < cpos {
                            assert(self.hp(q) <= i);
                        } else if q > cpos {
                            assert(self.kp(cpos) < self.kp(q));
                        }
                    }
                }
                continue;
            }
            let mut at_end = false;
            while !at_end && self.nodes[cur].get_key().key_lt(k)
                invariant
                    self.wf(),
                    kk == k.key_int(),
                    top == self.ht(0),
                    i < top,
                    -1 <= ppos <= cpos < self.n(),
                    cur == self.order@[cpos],
                    prev == self.idx_at(ppos),
                    ppos >= 0 ==> self.kp(ppos) < kk,
                    self.hp(ppos) > i,
                    !at_end ==> ppos < cpos && self.is_succ(ppos, i as int, cpos),
                    at_end ==> ppos == cpos && self.no_succ(ppos, i as int),
                    forall|q: int| ppos < q < self.n() && #[trigger] self.hp(q) > i + 1 ==> self.kp(q) > kk,
                decreases 2 * (self.n() - cpos) + (if at_end { 0int } else { 1int }),
            {
                proof {
                    assert(self.link_ok(cpos, i as int));
                }
                assert(self.kp(cpos) < kk);
                let nxt = self.nodes[cur].get_level_pointer(i);
                if nxt.is_null() {
                    prev = cur;
                    proof {
                        ppos = cpos;
                    }
                    at_end = true;
                } else {
                    let ghost q1 = choose|q: int| self.is_succ(cpos, i as int, q) && self.order@[q] == nxt.index();
                    prev = cur;
                    cur = nxt.0;
                    proof {
                        ppos = cpos;
                        cpos = q1;
                    }
                }
            }
            if !at_end && k.key_eq(self.nodes[cur].get_key()) {
                proof {
                    self.lemma_view();
                    lemma_strict_match(self@, kk, cpos);
                }
                return Some(self.nodes[cur].get_value());
            }
            proof {
                if !at_end {
                    assert forall|q: int| ppos < q < self.n() && #[trigger] self.hp(q) > i implies self.kp(q) > kk by {
                        if q < cpos {
                            assert(self.hp(q) <= i);
                        } else if q > cpos {
                            assert(self.kp(cpos) < self.kp(q));
                        }
                    }
                }
            }
        }
        proof {
            assert forall|q: int| 0 <= q < self.n() implies #[trigger] self@[q].0.key_int() != kk by {
                if q > ppos {
                    assert(self.hp(q) > 0);
                } else if q < ppos {
                    assert(self.kp(q) < self.kp(ppos));
                }
            }
        }
        None
    }

    /// Inserts `data`.  The new node gets one level, plus one for each of
    /// `MAX_LEVEL` coin flips that comes up heads.  When the key is present
    /// already, the entry keeps its key and takes the new value instead.
    pub fn insert(&mut self, data: (K, V))
        requires
            old(self).wf(),
            old(self)@.len() + 2 < usize::MAX,
        ensures
            final(self).wf(),
            has_key(old(self)@, data.0.key_int()) ==> final(self)@ == old(self)@.update(
                first_index(old(self)@, data.0.key_int()),
                (old(self)@[first_index(old(self)@, data.0.key_int())].0, data.1),
            ),
            !has_key(old(self)@, data.0.key_int()) ==> final(self)@ == old(self)@.insert(
                insert_spot(old(self)@, data.0.key_int()),
                data,
            ),
    {
        let ghost g = *self;
        let mut true_count: usize = 1;
        let mut c: usize = 0;
        while c < self.level
            invariant
                self.same_list(&g),
                g.level == MAX_LEVEL,
                c <= MAX_LEVEL,
                1 <= true_count <= c + 1,
            decreases MAX_LEVEL - c,
        {
            if self.flipCoin() {
                true_count = true_count + 1;
            }
            c = c + 1;
        }
        proof {
            self.lemma_same_list(&g);
        }
        let ghost kk = data.0.key_int();
        let ghost ov = self@;
        let ghost on = self.nodes@;
        let ghost ord = self.order@;
        let ghost ofree = self.free@;
        let ghost gdata = data;
        proof {
            self.lemma_view();
        }
        match self.find_path(&data.0) {
            PathSearch::Found(fidx) => {
                let ghost fpos = first_index(ov, kk);
                proof {
                    crate::ordered::lemma_has_key_first_match(ov, kk);
                    assert(on[fidx as int].bounded());
                }
                let (_, value) = data;
                let slot = self.nodes[fidx].get_mut_value();
                *slot = value;
                proof {
                    assert forall|j: int| 0 <= j < self.nodes@.len() implies #[trigger] self.nodes@[j].bounded() by {
                        assert(on[j].bounded());
                    }
                    assert forall|p: int| 0 <= p < ord.len() implies #[trigger] self.nodes@[ord[p] as int].vecPtr@ == on[ord[p] as int].vecPtr@
                        && self.nodes@[ord[p] as int].data.0.key_int() == on[ord[p] as int].data.0.key_int() by {
                    }
                    lemma_frame(on, self.nodes@, MAX_LEVEL, ord);
                    assert forall|p: int| 0 <= p < ord.len() implies #[trigger] self@[p] == ov.update(fpos, (ov[fpos].0, value))[p] by {
                        if p != fpos && ord[p] == fidx {
                            lemma_order_injective(on, MAX_LEVEL, ord, p, fpos);
                        }
                    }
                    assert(self@ =~= ov.update(fpos, (ov[fpos].0, value)));
                }
            },
            PathSearch::Path(path) => {
                let ghost pos = insert_spot(ov, kk);
                proof {
                    lemma_strict_sorted(ov);
                    lemma_insert_spot_exists(ov, kk);
                }
                let mut node = Node::new(data);
                let mut c2: usize = 0;
                while c2 < true_count
                    invariant
                        c2 <= true_count,
                        true_count <= MAX_LEVEL + 1,
                        node.bounded(),
                        node.entry() == gdata,
                        node.pointers().len() == c2,
                        forall|l: int| 0 <= l < c2 ==> #[trigger] node.pointers()[l].0 == NULL_INDEX,
                    decreases true_count - c2,
                {
                    node.put_newnodePtr(NodePtr::new());
                    c2 = c2 + 1;
                }
                let idx: usize;
                if self.free.len() > 0 {
                    idx = match self.free.pop() {
                        Some(f) => f,
                        None => 0,
                    };
                    proof {
                        assert(ofree.last() == idx);
                        assert(ofree[ofree.len() - 1] == idx);
                    }
                    self.nodes.set(idx, node);
                } else {
                    idx = self.nodes.len();
                    self.nodes.push(node);
                }
                let ghost n1 = self.nodes@;
                proof {
                    assert forall|p: int| 0 <= p < ord.len() implies #[trigger] ord[p] != idx by {
                        if ofree.len() > 0 {
                            assert(ofree[ofree.len() - 1] != ord[p]);
                        }
                    }
                    assert forall|j: int| 0 <= j < n1.len() implies #[trigger] n1[j].bounded() by {
                        if j != idx {
                            assert(on[j].bounded());
                        }
                    }
                    assert forall|p: int| 0 <= p < ord.len() implies #[trigger] n1[ord[p] as int].vecPtr@ == on[ord[p] as int].vecPtr@
                        && n1[ord[p] as int].data.0.key_int() == on[ord[p] as int].data.0.key_int() by {
                        assert(ord[p] != idx);
                    }
                    lemma_frame(on, n1, MAX_LEVEL, ord);
                    assert forall|l: int| 0 <= l < ht_of(n1, 0) implies #[trigger] path_ok(n1, ord, pos, path@, l) by {
                        lemma_path_frame(on, n1, ord, pos, path@, l);
                    }
                }
                self.splice(idx, true_count, &path, Ghost(pos));
                proof {
                    assert forall|p: int| 0 <= p < ord.len() implies #[trigger] kp_of(n1, ord, p) == ov[p].0.key_int() by {
                        assert(n1[ord[p] as int].vecPtr@ == on[ord[p] as int].vecPtr@);
                    }
                    assert forall|p: int| 0 <= p < pos implies #[trigger] kp_of(n1, ord, p) < self.nodes@[idx as int].data.0.key_int() by {
                        assert(ov[p].0.key_int() <= kk);
                        assert(ov[p].0.key_int() != kk);
                    }
                    assert forall|p: int| pos <= p < ord.len() implies #[trigger] kp_of(n1, ord, p) > self.nodes@[idx as int].data.0.key_int() by {
                        assert(ov[p].0.key_int() > kk);
                    }
                    lemma_splice_wf(n1, self.nodes@, MAX_LEVEL, ord, pos, idx, true_count as int, path@);
                    self.order@ = ord.insert(pos, idx);
                    assert(free_ok(self.nodes@, self.order@, self.free@)) by {
                        assert forall|g: int| 0 <= g < self.free@.len() implies 1 <= #[trigger] self.free@[g] < self.nodes@.len() by {
                            assert(self.free@[g] == ofree[g]);
                        }
                        assert forall|g: int, p: int| 0 <= g < self.free@.len() && 0 <= p < self.order@.len() implies #[trigger] self.free@[g] != #[trigger] self.order@[p] by {
                            assert(self.free@[g] == ofree[g]);
                            if p < pos {
                                assert(self.order@[p] == ord[p]);
                            } else if p > pos {
                                assert(self.order@[p] == ord[p - 1]);
                            } else {
                                if self.free@.len() < ofree.len() {
                                    assert(ofree[g] != ofree[ofree.len() - 1]);
                                }
                            }
                        }
                        assert(self.free@.no_duplicates()) by {
                            assert forall|a: int, b: int| 0 <= a < b < self.free@.len() implies self.free@[a] != self.free@[b] by {
                                assert(self.free@[a] == ofree[a]);
                                assert(self.free@[b] == ofree[b]);
                            }
                        }
                    }
                    assert forall|p: int| 0 <= p < ord.len() + 1 implies #[trigger] self@[p] == ov.insert(pos, gdata)[p] by {
                        if p < pos {
                            assert(self.order@[p] == ord[p]);
                            assert(ord[p] != idx);
                        } else if p > pos {
                            assert(self.order@[p] == ord[p - 1]);
                            assert(ord[p - 1] != idx);
                        }
                    }
                    assert(self@ =~= ov.insert(pos, gdata));
                }
            },
        }
    }

    /// Links the new node at store index `idx`, of height `tc`, in after the
    /// predecessors listed in `path`, and raises the head to `tc` levels if it
    /// is lower.
    fn splice(&mut self, idx: usize, tc: usize, path: &ManVec<NodePtr>, Ghost(pos): Ghost<int>)
        requires
            wf_of(old(self).nodes@, MAX_LEVEL, old(self).order@),
            old(self).level == MAX_LEVEL,
            0 <= pos <= old(self).order@.len(),
            path@.len() == ht_of(old(self).nodes@, 0),
            forall|l: int| 0 <= l < ht_of(old(self).nodes@, 0) ==> #[trigger] path_ok(old(self).nodes@, old(self).order@, pos, path@, l),
            1 <= idx < old(self).nodes@.len(),
            forall|p: int| 0 <= p < old(self).order@.len() ==> #[trigger] old(self).order@[p] != idx,
            1 <= tc <= MAX_LEVEL + 1,
            old(self).nodes@[idx as int].vecPtr@.len() == tc,
            forall|l: int| 0 <= l < tc ==> #[trigger] ptr_of(old(self).nodes@, idx as int, l) == NULL_INDEX,
        ensures
            final(self).order@ == old(self).order@,
            final(self).free@ == old(self).free@,
            final(self).level == old(self).level,
            final(self).nodes@.len() == old(self).nodes@.len(),
            forall|j: int| 0 <= j < final(self).nodes@.len() ==> #[trigger] final(self).nodes@[j].bounded(),
            forall|j: int| 1 <= j < old(self).nodes@.len() ==> (#[trigger] final(self).nodes@[j]).data == old(self).nodes@[j].data
                && final(self).nodes@[j].vecPtr@.len() == old(self).nodes@[j].vecPtr@.len(),
            forall|l: int| 0 <= l < tc ==> #[trigger] ptr_of(final(self).nodes@, idx as int, l) == (if l < ht_of(old(self).nodes@, 0) {
                ptr_of(old(self).nodes@, path@[ht_of(old(self).nodes@, 0) - 1 - l].0 as int, l)
            } else {
                NULL_INDEX
            }),
            final(self).nodes@[0].vecPtr@.len() == (if tc > ht_of(old(self).nodes@, 0) { tc as int } else { ht_of(old(self).nodes@, 0) }),
            forall|l: int| ht_of(old(self).nodes@, 0) <= l < tc ==> #[trigger] ptr_of(final(self).nodes@, 0, l) == idx,
            forall|p: int, l: int| -1 <= p < old(self).order@.len() && 0 <= l < hp_of(old(self).nodes@, old(self).order@, p) ==> #[trigger] ptr_of(final(self).nodes@, idx_at_of(old(self).order@, p), l)
                == (if l < tc && l < ht_of(old(self).nodes@, 0) && idx_at_of(old(self).order@, p) == path@[ht_of(old(self).nodes@, 0) - 1 - l].0 {
                idx
            } else {
                ptr_of(old(self).nodes@, idx_at_of(old(self).order@, p), l)
            }),
    {
        let ghost n1 = self.nodes@;
        let ghost ord = self.order@;
        let ghost fr = self.free@;
        proof {
            assert(n1[0].bounded());
        }
        let top = self.nodes[0].get_level();
        let mut i: usize = 0;
        while i < tc && i < top
            invariant
                wf_of(n1, MAX_LEVEL, ord),
                self.order@ == ord,
                self.free@ == fr,
                self.level == MAX_LEVEL,
                top == ht_of(n1, 0),
                0 <= pos <= ord.len(),
                1 <= tc <= MAX_LEVEL + 1,
                i <= tc,
                i <= top,
                path@.len() == top,
                forall|l: int| 0 <= l < top ==> #[trigger] path_ok(n1, ord, pos, path@, l),
                1 <= idx < n1.len(),
                forall|p: int| 0 <= p < ord.len() ==> #[trigger] ord[p] != idx,
                n1[idx as int].vecPtr@.len() == tc,
                forall|l: int| 0 <= l < tc ==> #[trigger] ptr_of(n1, idx as int, l) == NULL_INDEX,
                self.nodes@.len() == n1.len(),
                forall|j: int| 0 <= j < n1.len() ==> #[trigger] self.nodes@[j].bounded(),
                forall|j: int| 0 <= j < n1.len() ==> (#[trigger] self.nodes@[j]).data == n1[j].data
                    && self.nodes@[j].vecPtr@.len() == n1[j].vecPtr@.len(),
                forall|l: int| 0 <= l < tc ==> #[trigger] ptr_of(self.nodes@, idx as int, l) == (if l < i {
                    ptr_of(n1, path@[top - 1 - l].0 as int, l)
                } else {
                    NULL_INDEX
                }),
                forall|p: int, l: int| -1 <= p < ord.len() && 0 <= l < hp_of(n1, ord, p) ==> #[trigger] ptr_of(self.nodes@, idx_at_of(ord, p), l)
                    == (if l < i && idx_at_of(ord, p) == path@[top - 1 - l].0 {
                    idx
                } else {
                    ptr_of(n1, idx_at_of(ord, p), l)
                }),
            decreases top - i,
        {
            let ghost nb = self.nodes@;
            let j = top - 1 - i;
            let pj: usize = match path.get(j) {
                Some(p) => p.0,
                None => 0,
            };
            proof {
                assert(path_ok(n1, ord, pos, path@, i as int));
            }
            let ghost pp = choose|pp: int| #[trigger] is_pred_of(n1, ord, pos, i as int, pp) && path@[top - 1 - i].0 == idx_at_of(ord, pp);
            proof {
                assert(pj == idx_at_of(ord, pp));
                assert(-1 <= pp < ord.len());
                if pp >= 0 {
                    assert(1 <= ord[pp] < n1.len());
                }
                assert(pj != idx);
                assert(hp_of(n1, ord, pp) > i);
                assert(ptr_of(nb, pj as int, i as int) == ptr_of(n1, pj as int, i as int));
                assert(nb[pj as int].vecPtr@.len() == n1[pj as int].vecPtr@.len());
            }
            let next = self.nodes[pj].get_level_pointer(i);
            let ghost nm = self.nodes@;
            let _ = self.nodes[idx].set_level_pointer(i, next);
            let ghost nm2 = self.nodes@;
            let _ = self.nodes[pj].set_level_pointer(i, NodePtr(idx));
            proof {
                assert(nm == nb);
                assert forall|l: int| 0 <= l < tc implies #[trigger] ptr_of(self.nodes@, idx as int, l) == (if l < i + 1 {
                    ptr_of(n1, path@[top - 1 - l].0 as int, l)
                } else {
                    NULL_INDEX
                }) by {
                    assert(ptr_of(nb, idx as int, l) == (if l < i { ptr_of(n1, path@[top - 1 - l].0 as int, l) } else { NULL_INDEX }));
                }
                assert forall|p: int, l: int| -1 <= p < ord.len() && 0 <= l < hp_of(n1, ord, p) implies #[trigger] ptr_of(self.nodes@, idx_at_of(ord, p), l)
                    == (if l < i + 1 && idx_at_of(ord, p) == path@[top - 1 - l].0 {
                    idx
                } else {
                    ptr_of(n1, idx_at_of(ord, p), l)
                }) by {
                    let ip = idx_at_of(ord, p);
                    if p >= 0 {
                        assert(ord[p] != idx);
                    }
                    assert(ip != idx);
                    assert(ptr_of(nb, ip, l) == (if l < i && ip == path@[top - 1 - l].0 { idx } else { ptr_of(n1, ip, l) }));
                }
                assert forall|jj: int| 0 <= jj < n1.len() implies (#[trigger] self.nodes@[jj]).data == n1[jj].data
                    && self.nodes@[jj].vecPtr@.len() == n1[jj].vecPtr@.len() && self.nodes@[jj].bounded() by {
                    assert(nb[jj].data == n1[jj].data);
                    assert(nb[jj].bounded());
                }
            }
            i = i + 1;
        }
        let ghost ns = self.nodes@;
        proof {
            assert(ns[0].bounded());
        }
        let mut h: usize = top;
        while h < tc
            invariant
                top <= h,
                h <= tc || h == top,
                tc <= MAX_LEVEL + 1,
                ns.len() == n1.len(),
                1 <= idx < ns.len(),
                ns[0].vecPtr@.len() == top,
                self.order@ == ord,
                self.free@ == fr,
                self.level == MAX_LEVEL,
                self.nodes@.len() == ns.len(),
                forall|j: int| 0 < j < ns.len() ==> self.nodes@[j] == ns[j],
                self.nodes@[0].data == ns[0].data,
                self.nodes@[0].bounded(),
                self.nodes@[0].vecPtr@.len() == h,
                forall|l: int| 0 <= l < top ==> self.nodes@[0].vecPtr@[l] == ns[0].vecPtr@[l],
                forall|l: int| top <= l < h ==> #[trigger] ptr_of(self.nodes@, 0, l) == idx,
            decreases tc - h,
        {
            let ghost hb = self.nodes@;
            self.nodes[0].put_newnodePtr(NodePtr(idx));
            proof {
                assert forall|l: int| top <= l < h + 1 implies #[trigger] ptr_of(self.nodes@, 0, l) == idx by {
                    if l < h {
                        assert(ptr_of(hb, 0, l) == idx);
                    }
                }
            }
            h = h + 1;
        }
        proof {
            assert forall|l: int| 0 <= l < top implies #[trigger] ptr_of(self.nodes@, 0, l) == ptr_of(ns, 0, l) by {
                assert(self.nodes@[0].vecPtr@[l] == ns[0].vecPtr@[l]);
            }
            assert forall|j: int| 0 <= j < self.nodes@.len() implies #[trigger] self.nodes@[j].bounded() by {
                if j > 0 {
                    assert(self.nodes@[j] == ns[j]);
                }
            }
            assert forall|j: int| 1 <= j < n1.len() implies (#[trigger] self.nodes@[j]).data == n1[j].data
                && self.nodes@[j].vecPtr@.len() == n1[j].vecPtr@.len() by {
                assert(self.nodes@[j] == ns[j]);
            }
            assert forall|l: int| 0 <= l < tc implies #[trigger] ptr_of(self.nodes@, idx as int, l) == (if l < top {
                ptr_of(n1, path@[top - 1 - l].0 as int, l)
            } else {
                NULL_INDEX
            }) by {
                assert(self.nodes@[idx as int] == ns[idx as int]);
                assert(ptr_of(ns, idx as int, l) == (if l < i { ptr_of(n1, path@[top - 1 - l].0 as int, l) } else { NULL_INDEX }));
            }
            assert forall|p: int, l: int| -1 <= p < ord.len() && 0 <= l < hp_of(n1, ord, p) implies #[trigger] ptr_of(self.nodes@, idx_at_of(ord, p), l)
                == (if l < tc && l < top && idx_at_of(ord, p) == path@[top - 1 - l].0 {
                idx
            } else {
                ptr_of(n1, idx_at_of(ord, p), l)
            }) by {
                let ip = idx_at_of(ord, p);
                assert(ptr_of(ns, ip, l) == (if l < i && ip == path@[top - 1 - l].0 { idx } else { ptr_of(n1, ip, l) }));
                if ip != 0 {
                    assert(self.nodes@[ip] == ns[ip]);
                } else {
                    assert(l < top);
                }
            }
        }
    }

    /// The value under key `k`, if any, to change in place.
    pub fn find_mut(&mut self, k: &K) -> (r: Option<&mut V>)
        requires
            old(self).wf(),
        ensures
            final(self).wf(),
            r.is_some() == has_key(old(self)@, k.key_int()),
            r.is_some() ==> {
                let s = old(self)@;
                let i = first_index(s, k.key_int());
                &&& *r.unwrap() == s[i].1
                &&& final(self)@ == s.update(i, (s[i].0, *final(r.unwrap())))
            },
            r.is_none() ==> final(self)@ == old(self)@,
    {
        let ghost on = self.nodes@;
        let ghost ord = self.order@;
        match self.find_path(k) {
            PathSearch::Found(fidx) => {
                let ghost fpos = first_index(self@, k.key_int());
                proof {
                    crate::ordered::lemma_has_key_first_match(self@, k.key_int());
                    lemma_value_update(on, MAX_LEVEL, ord, fpos);
                    assert(on[fidx as int].bounded());
                }
                Some(self.nodes[fidx].get_mut_value())
            },
            PathSearch::Path(_) => None,
        }
    }

    /// Looks for key `k`: the node that holds it, or, when it is absent, the
    /// predecessor of its place at every level, top level first.
    fn find_path(&self, k: &K) -> (r: PathSearch)
        requires
            self.wf(),
        ensures
            match r {
                PathSearch::Found(idx) => has_key(self@, k.key_int()) && idx == self.order@[first_index(
                    self@,
                    k.key_int(),
                )],
                PathSearch::Path(path) => {
                    &&& !has_key(self@, k.key_int())
                    &&& path.wf()
                    &&& path.capacity_of() == MAX_LEVEL + 1
                    &&& path@.len() == self.ht(0)
                    &&& forall|l: int|
                        0 <= l < self.ht(0) ==> #[trigger] path_ok(
                            self.nodes@,
                            self.order@,
                            insert_spot(self@, k.key_int()),
                            path@,
                            l,
                        )
                },
            },
    {
        let ghost kk = k.key_int();
        proof {
            self.lemma_view();
            lemma_strict_sorted(self@);
            lemma_insert_spot_exists(self@, kk);
            assert(self.nodes@[0].bounded());
        }
        let ghost spot = insert_spot(self@, kk);
        let top = self.nodes[0].get_level();
        let mut path: ManVec<NodePtr> = ManVec::capacity(MAX_LEVEL + 1);
        let mut prev: usize = 0;
        let ghost mut ppos: int = -1;
        let mut i: usize = top;
        while i > 0
            invariant
                self.wf(),
                kk == k.key_int(),
                spot == insert_spot(self@, kk),
                is_insert_spot(self@, kk, spot),
                keys_strict(self@),
                self@.len() == self.n(),
                forall|p: int| 0 <= p < self.n() ==> #[trigger] self@[p].0.key_int() == self.kp(p),
                top == self.ht(0),
                top <= MAX_LEVEL + 1,
                i <= top,
                -1 <= ppos < self.n(),
                prev == self.idx_at(ppos),
                ppos >= 0 ==> self.kp(ppos) < kk,
                self.hp(ppos) >= i,
                forall|q: int| ppos < q < self.n() && #[trigger] self.hp(q) > i ==> self.kp(q) > kk,
                path.wf(),
                path.capacity_of() == MAX_LEVEL + 1,
                path@.len() == top - i,
                forall|l: int| i <= l < top ==> #[trigger] path_ok(self.nodes@, self.order@, spot, path@, l),
            decreases i,
        {
            i = i - 1;
            proof {
                assert(self.link_ok(ppos, i as int));
            }
            let cur0 = self.nodes[prev].get_level_pointer(i);
            if cur0.is_null() {
                proof {
                    if !self.no_succ(ppos, i as int) {
                        let q = choose|q: int| self.is_succ(ppos, i as int, q) && self.order@[q] == cur0.index();
                        assert(self.order@[q] < self.nodes@.len());
                    }
                }
            } else {
                let ghost q0 = choose|q: int| self.is_succ(ppos, i as int, q) && self.order@[q] == cur0.index();
                let mut cur: usize = cur0.0;
                let ghost mut cpos: int = q0;
                if k.key_lt(self.nodes[cur].get_key()) {
                    proof {
                        assert(self.kp(cpos) > kk);
                        assert forall|q: int| ppos < q < self.n() && #[trigger] self.hp(q) > i implies self.kp(q) > kk by {
                            if q < cpos {
                                assert(self.hp(q) <= i);
                            } else if q > cpos {
                                assert(self.kp(cpos) < self.kp(q));
                            }
                        }
                    }
                } else {
                    let mut at_end = false;
                    while !at_end && self.nodes[cur].get_key().key_lt(k)
                        invariant
                            self.wf(),
                            kk == k.key_int(),
                            top == self.ht(0),
                            i < top,
                            -1 <= ppos <= cpos < self.n(),
                            cur == self.order@[cpos],
                            prev == self.idx_at(ppos),
                            ppos >= 0 ==> self.kp(ppos) < kk,
                            self.hp(ppos) > i,
                            !at_end ==> ppos < cpos && self.is_succ(ppos, i as int, cpos),
                            at_end ==> ppos == cpos && self.no_succ(ppos, i as int),
                            forall|q: int| ppos < q < self.n() && #[trigger] self.hp(q) > i + 1 ==> self.kp(q) > kk,
                        decreases 2 * (self.n() - cpos) + (if at_end { 0int } else { 1int }),
                    {
                        proof {
                            assert(self.link_ok(cpos, i as int));
                        }
                        assert(self.kp(cpos) < kk);
                        let nxt = self.nodes[cur].get_level_pointer(i);
                        if nxt.is_null() {
                            prev = cur;
                            proof {
                                ppos = cpos;
                                if !self.no_succ(cpos, i as int) {
                                    let q = choose|q: int| self.is_succ(cpos, i as int, q) && self.order@[q] == nxt.index();
                                    assert(self.order@[q] < self.nodes@.len());
                                }
                            }
                            at_end = true;
                        } else {
                            let ghost q1 = choose|q: int| self.is_succ(cpos, i as int, q) && self.order@[q] == nxt.index();
                            prev = cur;
                            cur = nxt.0;
                            proof {
                                ppos = cpos;
                                cpos = q1;
                            }
                        }
                    }
                    if !at_end && k.key_eq(self.nodes[cur].get_key()) {
                        proof {
                            lemma_strict_match(self@, kk, cpos);
                        }
                        return PathSearch::Found(cur);
                    }
                    proof {
                        if !at_end {
                            assert forall|q: int| ppos < q < self.n() && #[trigger] self.hp(q) > i implies self.kp(q) > kk by {
                                if q < cpos {
                                    assert(self.hp(q) <= i);
                                } else if q > cpos {
                                    assert(self.kp(cpos) < self.kp(q));
                                }
                            }
                        }
                    }
                }
            }
            let ghost old_path = path@;
            path.push(NodePtr(prev));
            proof {
                assert(is_pred_of(self.nodes@, self.order@, spot, i as int, ppos)) by {
                    if ppos >= 0 {
                        assert(self@[ppos].0.key_int() < kk);
                    }
                    assert forall|r: int| ppos < r < spot implies #[trigger] hp_of(self.nodes@, self.order@, r) <= i by {
                        assert(self@[r].0.key_int() <= kk);
                        assert(self@[r].0.key_int() == self.kp(r));
                        if self.hp(r) > i {
                            assert(self.kp(r) > kk);
                        }
                    }
                }
                assert forall|l: int| i <= l < top implies #[trigger] path_ok(self.nodes@, self.order@, spot, path@, l) by {
                    if l == i {
                        assert(path@[top - 1 - l].0 == idx_at_of(self.order@, ppos));
                    } else {
                        assert(path_ok(self.nodes@, self.order@, spot, old_path, l));
                        let pp = choose|pp: int| #[trigger] is_pred_of(self.nodes@, self.order@, spot, l, pp) && old_path[top - 1 - l].0 == idx_at_of(self.order@, pp);
                        assert(path@[top - 1 - l] == old_path[top - 1 - l]);
                        assert(is_pred_of(self.nodes@, self.order@, spot, l, pp));
                    }
                }
            }
        }
        proof {
            assert forall|q: int| 0 <= q < self.n() implies #[trigger] self@[q].0.key_int() != kk by {
                if q > ppos {
                    assert(self.hp(q) > 0);
                } else if q < ppos {
                    assert(self.kp(q) < self.kp(ppos));
                }
            }
        }
        PathSearch::Path(path)
    }

    /// Removes the entry of key `k`, if there is one.
    pub fn remove(&mut self, k: &K)
        requires
            old(self).wf(),
        ensures
            final(self).wf(),
            has_key(old(self)@, k.key_int()) ==> final(self)@ == old(self)@.remove(
                first_index(old(self)@, k.key_int()),
            ),
            !has_key(old(self)@, k.key_int()) ==> final(self)@ == old(self)@,
    {
        let ghost kk = k.key_int();
        let ghost on = self.nodes@;
        let ghost ord = self.order@;
        let ghost ov = self@;
        let ghost ofree = self.free@;
        proof {
            self.lemma_view();
        }
        let ghost present = has_key(self@, kk);
        let ghost fpos: int = if present { first_index(self@, kk) } else { -1 };
        proof {
            if present {
                crate::ordered::lemma_has_key_first_match(self@, kk);
            } else {
                assert forall|q: int| 0 <= q < ord.len() implies #[trigger] kp_of(on, ord, q) != kk by {
                    assert(self@[q].0.key_int() == self.kp(q));
                }
            }
        }
        let ghost f: usize = if present { ord[fpos] } else { NULL_INDEX };
        let top = self.nodes[0].get_level();
        let mut last_find = NodePtr::new();
        let mut prev: usize = 0;
        let ghost mut ppos: int = -1;
        let mut i: usize = top;
        while i > 0
            invariant
                wf_of(on, MAX_LEVEL, ord),
                free_ok(on, ord, ofree),
                self.free@ == ofree,
                self.order@ == ord,
                self.level == MAX_LEVEL,
                present ==> rewired(on, self.nodes@, ord, f, i as int),
                !present ==> self.nodes@ == on,
                kk == k.key_int(),
                top == ht_of(on, 0),
                i <= top,
                -1 <= ppos < ord.len(),
                prev == idx_at_of(ord, ppos),
                ppos >= 0 ==> kp_of(on, ord, ppos) < kk,
                hp_of(on, ord, ppos) >= i,
                forall|q: int| ppos < q < ord.len() && #[trigger] hp_of(on, ord, q) > i ==> kp_of(on, ord, q) >= kk,
                present ==> 0 <= fpos < ord.len() && kp_of(on, ord, fpos) == kk && f == ord[fpos],
                !present ==> forall|q: int| 0 <= q < ord.len() ==> #[trigger] kp_of(on, ord, q) != kk,
                last_find.index() == (if present && hp_of(on, ord, fpos) > i { f } else { NULL_INDEX }),
            decreases i,
        {
            i = i - 1;
            proof {
                assert(link_ok_of(on, ord, ppos, i as int));
                if ppos >= 0 {
                    assert(on[ord[ppos] as int].bounded());
                }
            }
            let cur0 = self.nodes[prev].get_level_pointer(i);
            proof {
                if present {
                    assert(ptr_of(self.nodes@, prev as int, i as int) == ptr_of(on, prev as int, i as int));
                }
            }
            let mut at_end = true;
            let mut cur: usize = 0;
            let ghost mut cpos: int = ppos;
            if !cur0.is_null() {
                let ghost q0 = choose|q: int| is_succ_of(on, ord, ppos, i as int, q) && ord[q] == cur0.index();
                cur = cur0.0;
                proof {
                    cpos = q0;
                    assert(on[cur as int].data == self.nodes@[cur as int].data);
                }
                if k.key_lt(self.nodes[cur].get_key()) {
                    at_end = true;
                    cur = 0;
                    proof {
                        assert forall|q: int| ppos < q < ord.len() && #[trigger] hp_of(on, ord, q) > i implies kp_of(on, ord, q) > kk by {
                            if q < cpos {
                                assert(hp_of(on, ord, q) <= i);
                            } else if q > cpos {
                                assert(kp_of(on, ord, cpos) < kp_of(on, ord, q));
                            }
                        }
                        cpos = ppos;
                    }
                } else {
                    at_end = false;
                }
            }
            // at_end here means: no successor at level i, or the successor's key is above k.
            let mut scanning = !at_end;
            proof {
                if at_end {
                    assert forall|q: int| ppos < q < ord.len() && #[trigger] hp_of(on, ord, q) > i implies kp_of(on, ord, q) > kk by {
                        if cur0.index() == NULL_INDEX {
                            assert(no_succ_of(on, ord, ppos, i as int));
                        }
                    }
                }
            }
            while scanning && self.nodes[cur].get_key().key_lt(k)
                invariant
                    wf_of(on, MAX_LEVEL, ord),
                    self.free@ == ofree,
                    self.order@ == ord,
                    present ==> rewired(on, self.nodes@, ord, f, i as int + 1),
                    !present ==> self.nodes@ == on,
                    kk == k.key_int(),
                    top == ht_of(on, 0),
                    i < top,
                    -1 <= ppos <= cpos < ord.len(),
                    prev == idx_at_of(ord, ppos),
                    ppos >= 0 ==> kp_of(on, ord, ppos) < kk,
                    hp_of(on, ord, ppos) > i,
                    scanning ==> ppos < cpos && cur == ord[cpos] && is_succ_of(on, ord, ppos, i as int, cpos),
                    !scanning ==> (forall|q: int| ppos < q < ord.len() && #[trigger] hp_of(on, ord, q) > i ==> kp_of(on, ord, q) > kk),
                    forall|q: int| ppos < q < ord.len() && #[trigger] hp_of(on, ord, q) > i + 1 ==> kp_of(on, ord, q) >= kk,
                    present ==> 0 <= fpos < ord.len() && kp_of(on, ord, fpos) == kk && f == ord[fpos],
                    !present ==> forall|q: int| 0 <= q < ord.len() ==> #[trigger] kp_of(on, ord, q) != kk,
                decreases 2 * (ord.len() - cpos) + (if scanning { 1int } else { 0int }),
            {
                proof {
                    assert(link_ok_of(on, ord, cpos, i as int));
                    assert(on[cur as int].bounded());
                    if present {
                        assert(ptr_of(self.nodes@, cur as int, i as int) == ptr_of(on, cur as int, i as int));
                    }
                    assert(on[cur as int].data == self.nodes@[cur as int].data);
                }
                let nxt = self.nodes[cur].get_level_pointer(i);
                if nxt.is_null() {
                    prev = cur;
                    proof {
                        ppos = cpos;
                        assert(no_succ_of(on, ord, ppos, i as int));
                    }
                    scanning = false;
                    cur = 0;
                } else {
                    let ghost q1 = choose|q: int| is_succ_of(on, ord, cpos, i as int, q) && ord[q] == nxt.index();
                    prev = cur;
                    cur = nxt.0;
                    proof {
                        ppos = cpos;
                        cpos = q1;
                    }
                }
            }
            if scanning && k.key_eq(self.nodes[cur].get_key()) {
                // `cur` is the node of key `k`, at position `fpos`.
                proof {
                    assert(self.nodes@[cur as int].data == on[cur as int].data);
                    assert(kp_of(on, ord, cpos) == kk);
                    assert(present);
                    if cpos != fpos {
                        if cpos < fpos {
                            assert(kp_of(on, ord, cpos) < kp_of(on, ord, fpos));
                        } else {
                            assert(kp_of(on, ord, fpos) < kp_of(on, ord, cpos));
                        }
                    }
                    assert(on[cur as int].bounded());
                    assert(ptr_of(self.nodes@, cur as int, i as int) == ptr_of(on, cur as int, i as int));
                }
                let ghost nb = self.nodes@;
                let nxt = self.nodes[cur].get_level_pointer(i);
                let _ = self.nodes[prev].set_level_pointer(i, nxt);
                proof {
                    lemma_rewire_step(on, nb, self.nodes@, MAX_LEVEL, ord, fpos, ppos, i as int);
                }
                last_find = NodePtr(cur);
            } else {
                proof {
                    if scanning {
                        assert forall|q: int| ppos < q < ord.len() && #[trigger] hp_of(on, ord, q) > i implies kp_of(on, ord, q) > kk by {
                            if q < cpos {
                                assert(hp_of(on, ord, q) <= i);
                            } else if q > cpos {
                                assert(kp_of(on, ord, cpos) < kp_of(on, ord, q));
                            }
                        }
                    }
                    if present {
                        if hp_of(on, ord, fpos) > i {
                            assert(kp_of(on, ord, fpos) > kk);
                        }
                        lemma_rewire_skip(on, self.nodes@, MAX_LEVEL, ord, f, fpos, i as int);
                    }
                }
            }
        }
        if last_find.is_null() {
            proof {
                if present {
                    assert(hp_of(on, ord, fpos) >= 1);
                }
                assert(self@ =~= ov);
            }
            return;
        }
        self.free.push(last_find.0);
        proof {
            assert(present);
            lemma_unlink_wf(on, self.nodes@, MAX_LEVEL, ord, fpos);
            self.order@ = ord.remove(fpos);
            assert(free_ok(self.nodes@, self.order@, self.free@)) by {
                assert forall|g: int| 0 <= g < ofree.len() implies #[trigger] ofree[g] != f by {
                    assert(ofree[g] != ord[fpos]);
                }
                assert forall|g: int, p: int| 0 <= g < self.free@.len() && 0 <= p < self.order@.len() implies #[trigger] self.free@[g] != #[trigger] self.order@[p] by {
                    let m = if p < fpos { p } else { p + 1 };
                    assert(self.order@[p] == ord[m]);
                    if g < ofree.len() {
                        assert(ofree[g] != ord[m]);
                    } else {
                        if ord[m] == f {
                            lemma_order_injective(on, MAX_LEVEL, ord, m, fpos);
                        }
                    }
                }
                assert forall|g: int| 0 <= g < self.free@.len() implies 1 <= #[trigger] self.free@[g] < self.nodes@.len() by {
                    if g < ofree.len() {
                        assert(ofree[g] == self.free@[g]);
                    }
                }
                assert forall|a: int, b: int| 0 <= a < b < self.free@.len() implies self.free@[a] != self.free@[b] by {
                    if b == ofree.len() {
                        assert(ofree[a] != f);
                    }
                }
            }
            assert forall|p: int| 0 <= p < ord.len() - 1 implies #[trigger] self@[p] == ov.remove(fpos)[p] by {
                let m = if p < fpos { p } else { p + 1 };
                assert(self.order@[p] == ord[m]);
                assert(self.nodes@[ord[m] as int].data == on[ord[m] as int].data);
            }
            assert(self@ =~= ov.remove(fpos));
        }
        while self.nodes[0].get_level() > 0 && self.nodes[0].get_level_pointer(self.nodes[0].get_level() - 1).is_null()
            invariant
                self.wf(),
                self@ == ov.remove(fpos),
            decreases self.ht(0),
        {
            let ghost nb = self.nodes@;
            proof {
                assert(nb[0].bounded());
            }
            self.nodes[0].pop();
            proof {
                lemma_pop_head(nb, self.nodes@, self.level, self.order@);
                assert(self@ =~= ov.remove(fpos)) by {
                    assert forall|p: int| 0 <= p < self.order@.len() implies self@[p] == ov.remove(fpos)[p] by {
                        assert(self.order@[p] >= 1);
                    }
                }
            }
        }
    }
}

impl<K: IntKey + Default, V: Default> SkipList<K, V> {
    /// An empty list.
    pub fn new() -> (r: Self)
        ensures
            r.wf(),
            r@ == Seq::<(K, V)>::empty(),
    {
        let head = Node::new((K::default(), V::default()));
        let mut nodes = Vec::new();
        nodes.push(head);
        let r = SkipList {
            nodes,
            level: MAX_LEVEL,
            rng: thread_rng_handle(),
            free: Vec::new(),
            order: Ghost(Seq::empty()),
        };
        assert(r@ =~= Seq::<(K, V)>::empty());
        r
    }
}

// ----------------------------------------------------------------------
// Laws
// ----------------------------------------------------------------------

/// After `insert((k, v))`, looking `k` up finds `v`, whether `k` was there
/// before or not.
pub proof fn lemma_find_after_insert<K: IntKey, V>(before: SkipList<K, V>, after: SkipList<K, V>, k: K, v: V)
    requires
        before.wf(),
        after.wf(),
        has_key(before@, k.key_int()) ==> after@ == before@.update(
            first_index(before@, k.key_int()),
            (before@[first_index(before@, k.key_int())].0, v),
        ),
        !has_key(before@, k.key_int()) ==> after@ == before@.insert(insert_spot(before@, k.key_int()), (k, v)),
    ensures
        has_key(after@, k.key_int()),
        after@[first_index(after@, k.key_int())].1 == v,
{
    let kk = k.key_int();
    before.lemma_view();
    after.lemma_view();
    if has_key(before@, kk) {
        crate::ordered::lemma_has_key_first_match(before@, kk);
        let i = first_index(before@, kk);
        lemma_strict_match(after@, kk, i);
    } else {
        lemma_strict_sorted(before@);
        lemma_insert_spot_exists(before@, kk);
        let p = insert_spot(before@, kk);
        assert(after@[p] == (k, v));
        lemma_strict_match(after@, kk, p);
    }
}

/// After `remove(k)`, looking `k` up finds nothing.
pub proof fn lemma_find_after_remove<K: IntKey, V>(before: SkipList<K, V>, after: SkipList<K, V>, k: K)
    requires
        before.wf(),
        has_key(before@, k.key_int()) ==> after@ == before@.remove(first_index(before@, k.key_int())),
        !has_key(before@, k.key_int()) ==> after@ == before@,
    ensures
        !has_key(after@, k.key_int()),
{
    let kk = k.key_int();
    before.lemma_view();
    if has_key(before@, kk) {
        crate::ordered::lemma_has_key_first_match(before@, kk);
        let i = first_index(before@, kk);
        if has_key(after@, kk) {
            let j = choose|j: int| 0 <= j < after@.len() && after@[j].0.key_int() == kk;
            if j < i {
                assert(after@[j] == before@[j]);
            } else {
                assert(after@[j] == before@[j + 1]);
                assert(before@[i].0.key_int() < before@[j + 1].0.key_int());
            }
        }
    }
}

/// The keys of a list strictly increase, so each key has its one place among
/// the entries: the place where `insert` puts a new key.
pub proof fn lemma_keys_strict<K: IntKey, V>(t: SkipList<K, V>)
    requires
        t.wf(),
    ensures
        keys_strict(t@),
        forall|k: int| is_insert_spot(t@, k, #[trigger] insert_spot(t@, k)),
{
    t.lemma_view();
    lemma_strict_sorted(t@);
    assert forall|k: int| is_insert_spot(t@, k, #[trigger] insert_spot(t@, k)) by {
        lemma_insert_spot_exists(t@, k);
    }
}

/// `insert((k, v))` changes no other key's lookup: a key `k2` other than `k`
/// is present afterwards exactly when it was before, with the same value.
pub proof fn lemma_find_other_after_insert<K: IntKey, V>(before: SkipList<K, V>, after: SkipList<K, V>, k: K, v: V, k2: int)
    requires
        before.wf(),
        after.wf(),
        has_key(before@, k.key_int()) ==> after@ == before@.update(
            first_index(before@, k.key_int()),
            (before@[first_index(before@, k.key_int())].0, v),
        ),
        !has_key(before@, k.key_int()) ==> after@ == before@.insert(insert_spot(before@, k.key_int()), (k, v)),
        k2 != k.key_int(),
    ensures
        has_key(after@, k2) == has_key(before@, k2),
        has_key(before@, k2) ==> after@[first_index(after@, k2)].1 == before@[first_index(before@, k2)].1,
{
    let kk = k.key_int();
    let b = before@;
    let a = after@;
    before.lemma_view();
    after.lemma_view();
    if has_key(b, kk) {
        crate::ordered::lemma_has_key_first_match(b, kk);
        let i = first_index(b, kk);
        if has_key(b, k2) {
            let j = choose|j: int| 0 <= j < b.len() && b[j].0.key_int() == k2;
            assert(a[j] == b[j]);
            lemma_strict_match(b, k2, j);
            lemma_strict_match(a, k2, j);
        }
        if has_key(a, k2) {
            let j = choose|j: int| 0 <= j < a.len() && a[j].0.key_int() == k2;
            assert(a[j] == b[j]);
            assert(has_key(b, k2));
        }
    } else {
        lemma_strict_sorted(b);
        lemma_insert_spot_exists(b, kk);
        let p = insert_spot(b, kk);
        if has_key(b, k2) {
            let j = choose|j: int| 0 <= j < b.len() && b[j].0.key_int() == k2;
            let jj = if j < p { j } else { j + 1 };
            assert(a[jj] == b[j]);
            lemma_strict_match(b, k2, j);
            lemma_strict_match(a, k2, jj);
        }
        if has_key(a, k2) {
            let j = choose|j: int| 0 <= j < a.len() && a[j].0.key_int() == k2;
            if j < p {
                assert(a[j] == b[j]);
            } else {
                assert(j != p);
                assert(a[j] == b[j - 1]);
            }
            assert(has_key(b, k2));
        }
    }
}

/// `remove(k)` changes no other key's lookup: a key `k2` other than `k` is
/// present afterwards exactly when it was before, with the same value.
pub proof fn lemma_find_other_after_remove<K: IntKey, V>(before: SkipList<K, V>, after: SkipList<K, V>, k: K, k2: int)
    requires
        before.wf(),
        after.wf(),
        has_key(before@, k.key_int()) ==> after@ == before@.remove(first_index(before@, k.key_int())),
        !has_key(before@, k.key_int()) ==> after@ == before@,
        k2 != k.key_int(),
    ensures
        has_key(after@, k2) == has_key(before@, k2),
        has_key(before@, k2) ==> after@[first_index(after@, k2)].1 == before@[first_index(before@, k2)].1,
{
    let kk = k.key_int();
    let b = before@;
    let a = after@;
    before.lemma_view();
    after.lemma_view();
    if has_key(b, kk) {
        crate::ordered::lemma_has_key_first_match(b, kk);
        let i = first_index(b, kk);
        if has_key(b, k2) {
            let j = choose|j: int| 0 <= j < b.len() && b[j].0.key_int() == k2;
            assert(j != i);
            let jj = if j < i { j } else { j - 1 };
            assert(a[jj] == b[j]);
            lemma_strict_match(b, k2, j);
            lemma_strict_match(a, k2, jj);
        }
        if has_key(a, k2) {
            let j = choose|j: int| 0 <= j < a.len() && a[j].0.key_int() == k2;
            if j < i {
                assert(a[j] == b[j]);
            } else {
                assert(a[j] == b[j + 1]);
            }
            assert(has_key(b, k2));
        }
    }
}

} // verus!
