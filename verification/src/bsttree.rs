use vstd::prelude::*;
use crate::key::IntKey;
use crate::quicksortbinarysearch::{sorted, holds_key};

verus! {

/// A node of a binary search tree: an element and two subtrees.
pub struct TreeNode<T> {
    data: T,
    left: Option<Box<TreeNode<T>>>,
    right: Option<Box<TreeNode<T>>>,
}

/// The elements of `t` in in-order: each node between its left subtree and
/// its right subtree.
pub closed spec fn inorder<T>(t: Option<Box<TreeNode<T>>>) -> Seq<T>
    decreases t,
{
    match t {
        None => Seq::empty(),
        Some(n) => inorder(n.left) + seq![n.data] + inorder(n.right),
    }
}

/// `p` is where an element of key `k` goes in the sorted `s`: after every
/// element of a smaller key and before every other element.
pub open spec fn is_lower_spot<T: IntKey>(s: Seq<T>, k: int, p: int) -> bool {
    &&& 0 <= p <= s.len()
    &&& forall|i: int| 0 <= i < p ==> #[trigger] s[i].key_int() < k
    &&& forall|i: int| p <= i < s.len() ==> #[trigger] s[i].key_int() >= k
}

/// The place where an element of key `k` goes in the sorted `s`.
pub open spec fn lower_spot<T: IntKey>(s: Seq<T>, k: int) -> int {
    choose|p: int| is_lower_spot(s, k, p)
}

/// `s` with the block `u` put in at index `p`.
pub open spec fn splice<T>(s: Seq<T>, p: int, u: Seq<T>) -> Seq<T> {
    s.subrange(0, p) + u + s.subrange(p, s.len() as int)
}

/// Every node of `t` is at least each element of its left subtree and less
/// than each element of its right subtree: the shape of a binary search tree
/// whose equal keys go to the left.
pub closed spec fn bst_shape<T: IntKey>(t: Option<Box<TreeNode<T>>>) -> bool
    decreases t,
{
    match t {
        None => true,
        Some(n) => {
            &&& forall|i: int| 0 <= i < inorder(n.left).len() ==> #[trigger] inorder(n.left)[i].key_int() <= n.data.key_int()
            &&& forall|i: int| 0 <= i < inorder(n.right).len() ==> #[trigger] inorder(n.right)[i].key_int() > n.data.key_int()
            &&& bst_shape(n.left)
            &&& bst_shape(n.right)
        },
    }
}

/// `b` is `a` with `t` hung at one of the empty places of `a`: every node of
/// `a` keeps its element and its links, but for the one empty link that now
/// holds `t`.
pub closed spec fn grafted<T>(a: Option<Box<TreeNode<T>>>, b: Option<Box<TreeNode<T>>>, t: Box<TreeNode<T>>) -> bool
    decreases b,
{
    match b {
        None => false,
        Some(n) => match a {
            None => n == t,
            Some(m) => {
                &&& m.data == n.data
                &&& {
                    ||| m.right == n.right && grafted(m.left, n.left, t)
                    ||| m.left == n.left && grafted(m.right, n.right, t)
                }
            },
        },
    }
}

/// A spot is the only one.
proof fn lemma_lower_spot_unique<T: IntKey>(s: Seq<T>, k: int, p: int)
    requires
        is_lower_spot(s, k, p),
    ensures
        lower_spot(s, k) == p,
{
    let q = lower_spot(s, k);
    assert(is_lower_spot(s, k, q));
    if q < p {
        assert(s[q].key_int() < k);
    } else if p < q {
        assert(s[p].key_int() < k);
    }
}

/// The parts of a sorted concatenation are sorted, and ordered.
proof fn lemma_sorted_parts<T: IntKey>(l: Seq<T>, x: T, r: Seq<T>)
    requires
        sorted(l + seq![x] + r),
    ensures
        sorted(l),
        sorted(r),
        forall|i: int| 0 <= i < l.len() ==> #[trigger] l[i].key_int() <= x.key_int(),
        forall|i: int| 0 <= i < r.len() ==> x.key_int() <= #[trigger] r[i].key_int(),
{
    let s = l + seq![x] + r;
    assert forall|i: int, j: int| 0 <= i <= j < l.len() implies l[i].key_int() <= l[j].key_int() by {
        assert(s[i] == l[i] && s[j] == l[j]);
    }
    assert forall|i: int, j: int| 0 <= i <= j < r.len() implies r[i].key_int() <= r[j].key_int() by {
        assert(s[l.len() + 1 + i] == r[i] && s[l.len() + 1 + j] == r[j]);
    }
    assert forall|i: int| 0 <= i < l.len() implies #[trigger] l[i].key_int() <= x.key_int() by {
        assert(s[i] == l[i] && s[l.len() as int] == x);
    }
    assert forall|i: int| 0 <= i < r.len() implies x.key_int() <= #[trigger] r[i].key_int() by {
        assert(s[l.len() + 1 + i] == r[i] && s[l.len() as int] == x);
    }
}

/// Bounds that hold of every element of `l` and of `u` hold of every element
/// of `u` spliced into `l`.
proof fn lemma_splice_bounds<T: IntKey>(l: Seq<T>, p: int, u: Seq<T>, x: int)
    requires
        0 <= p <= l.len(),
    ensures
        (forall|i: int| 0 <= i < l.len() ==> #[trigger] l[i].key_int() <= x) && (forall|i: int|
            0 <= i < u.len() ==> #[trigger] u[i].key_int() <= x) ==> forall|i: int|
            0 <= i < splice(l, p, u).len() ==> #[trigger] splice(l, p, u)[i].key_int() <= x,
        (forall|i: int| 0 <= i < l.len() ==> #[trigger] l[i].key_int() > x) && (forall|i: int|
            0 <= i < u.len() ==> #[trigger] u[i].key_int() > x) ==> forall|i: int|
            0 <= i < splice(l, p, u).len() ==> #[trigger] splice(l, p, u)[i].key_int() > x,
{
    let v = splice(l, p, u);
    assert forall|i: int| 0 <= i < v.len() implies v[i] == l[i] || v[i] == u[i - p] || v[i] == l[i - u.len()] by {
        if i < p {
            assert(v[i] == l[i]);
        } else if i < p + u.len() {
            assert(v[i] == u[i - p]);
        } else {
            assert(v[i] == l[i - u.len()]);
        }
    }
    if (forall|i: int| 0 <= i < l.len() ==> #[trigger] l[i].key_int() <= x) && (forall|i: int|
        0 <= i < u.len() ==> #[trigger] u[i].key_int() <= x) {
        assert forall|i: int| 0 <= i < v.len() implies #[trigger] v[i].key_int() <= x by {
            if i < p {
                assert(v[i] == l[i]);
            } else if i < p + u.len() {
                assert(v[i] == u[i - p]);
            } else {
                assert(v[i] == l[i - u.len()]);
            }
        }
    }
    if (forall|i: int| 0 <= i < l.len() ==> #[trigger] l[i].key_int() > x) && (forall|i: int|
        0 <= i < u.len() ==> #[trigger] u[i].key_int() > x) {
        assert forall|i: int| 0 <= i < v.len() implies #[trigger] v[i].key_int() > x by {
            if i < p {
                assert(v[i] == l[i]);
            } else if i < p + u.len() {
                assert(v[i] == u[i - p]);
            } else {
                assert(v[i] == l[i - u.len()]);
            }
        }
    }
}

/// A subtree of the shape of a binary search tree is sorted in in-order.
proof fn lemma_shape_sorted<T: IntKey>(t: Option<Box<TreeNode<T>>>)
    requires
        bst_shape(t),
    ensures
        sorted(inorder(t)),
    decreases t,
{
    if let Some(n) = t {
        lemma_shape_sorted(n.left);
        lemma_shape_sorted(n.right);
        let l = inorder(n.left);
        let r = inorder(n.right);
        let s = inorder(t);
        assert(s == l + seq![n.data] + r);
        assert forall|i: int, j: int| 0 <= i <= j < s.len() implies s[i].key_int() <= s[j].key_int() by {
            let ll = l.len() as int;
            if j < ll {
                assert(s[i] == l[i] && s[j] == l[j]);
            } else if j == ll {
                assert(s[j] == n.data);
                if i < ll {
                    assert(s[i] == l[i]);
                }
            } else if i > ll {
                assert(s[i] == r[i - ll - 1] && s[j] == r[j - ll - 1]);
            } else {
                assert(s[j] == r[j - ll - 1]);
                assert(r[j - ll - 1].key_int() > n.data.key_int());
                if i < ll {
                    assert(s[i] == l[i]);
                } else {
                    assert(s[i] == n.data);
                }
            }
        }
    }
}

/// Puts the subtree `t` in at its place below `link`: down to the left at a
/// node of at least its key, to the right otherwise.
#[verifier::spinoff_prover]
#[verifier::rlimit(40)]
fn insert_into<T: IntKey>(link: &mut Option<Box<TreeNode<T>>>, t: Box<TreeNode<T>>)
    requires
        sorted(inorder(*old(link))),
    ensures
        is_lower_spot(inorder(*old(link)), t.data.key_int(), lower_spot(inorder(*old(link)), t.data.key_int())),
        inorder(*final(link)) == splice(
            inorder(*old(link)),
            lower_spot(inorder(*old(link)), t.data.key_int()),
            inorder(Some(t)),
        ),
        grafted(*old(link), *final(link), t),
        bst_shape(*old(link)) && t.left is None && t.right is None ==> bst_shape(*final(link)),
    decreases *old(link),
{
    let ghost s = inorder(*link);
    let ghost k = t.data.key_int();
    let ghost u = inorder(Some(t));
    let ghost leaf = t.left is None && t.right is None;
    let ghost td = t.data;
    proof {
        if leaf {
            assert(inorder::<T>(None) == Seq::<T>::empty());
            assert(u =~= seq![td]);
        }
    }
    match link {
        None => {
            proof {
                assert(is_lower_spot(s, k, 0));
                lemma_lower_spot_unique(s, k, 0);
            }
            *link = Some(t);
            assert(inorder(*link) =~= splice(s, 0, u));
            proof {
                if leaf {
                    assert(inorder::<T>(None) == Seq::<T>::empty());
                    assert(bst_shape::<T>(None));
                }
            }
        },
        Some(x) => {
            let ghost l = inorder(x.left);
            let ghost r = inorder(x.right);
            let ghost xd = x.data;
            proof {
                lemma_sorted_parts(l, xd, r);
            }
            if t.data.key_le(&x.data) {
                insert_into(&mut x.left, t);
                proof {
                    let pl = lower_spot(l, k);
                    assert(is_lower_spot(s, k, pl)) by {
                        assert forall|i: int| 0 <= i < pl implies #[trigger] s[i].key_int() < k by {
                            assert(s[i] == l[i]);
                        }
                        assert forall|i: int| pl <= i < s.len() implies #[trigger] s[i].key_int() >= k by {
                            if i < l.len() {
                                assert(s[i] == l[i]);
                            } else if i == l.len() {
                                assert(s[i] == xd);
                            } else {
                                assert(s[i] == r[i - l.len() - 1]);
                            }
                        }
                    }
                    lemma_lower_spot_unique(s, k, pl);
                    assert(splice(l, pl, u) + seq![xd] + r =~= splice(s, pl, u));
                    lemma_splice_bounds(l, pl, u, xd.key_int());
                }
            } else {
                insert_into(&mut x.right, t);
                proof {
                    let pr = lower_spot(r, k);
                    let p = l.len() + 1 + pr;
                    assert(is_lower_spot(s, k, p)) by {
                        assert forall|i: int| 0 <= i < p implies #[trigger] s[i].key_int() < k by {
                            if i < l.len() {
                                assert(s[i] == l[i]);
                            } else if i == l.len() {
                                assert(s[i] == xd);
                            } else {
                                assert(s[i] == r[i - l.len() - 1]);
                            }
                        }
                        assert forall|i: int| p <= i < s.len() implies #[trigger] s[i].key_int() >= k by {
                            assert(s[i] == r[i - l.len() - 1]);
                        }
                    }
                    lemma_lower_spot_unique(s, k, p);
                    assert(l + seq![xd] + splice(r, pr, u) =~= splice(s, p, u));
                    lemma_splice_bounds(r, pr, u, xd.key_int());
                }
            }
        },
    }
}

/// Whether some element below `link` has the key of `t`.
fn search_in<T: IntKey>(link: &Option<Box<TreeNode<T>>>, t: &T) -> (r: bool)
    requires
        sorted(inorder(*link)),
    ensures
        r == holds_key(inorder(*link), t.key_int()),
    decreases *link,
{
    match link {
        None => false,
        Some(x) => {
            let ghost l = inorder(x.left);
            let ghost r = inorder(x.right);
            let ghost s = inorder(*link);
            proof {
                lemma_sorted_parts(l, x.data, r);
            }
            if x.data.key_eq(t) {
                assert(s[l.len() as int] == x.data);
                true
            } else if x.data.key_lt(t) {
                let found = search_in(&x.right, t);
                proof {
                    if found {
                        let i = choose|i: int| 0 <= i < r.len() && r[i].key_int() == t.key_int();
                        assert(s[l.len() + 1 + i] == r[i]);
                    }
                    if holds_key(s, t.key_int()) {
                        let i = choose|i: int| 0 <= i < s.len() && s[i].key_int() == t.key_int();
                        if i < l.len() {
                            assert(s[i] == l[i]);
                        } else if i > l.len() {
                            assert(s[i] == r[i - l.len() - 1]);
                        }
                    }
                }
                found
            } else {
                let found = search_in(&x.left, t);
                proof {
                    if found {
                        let i = choose|i: int| 0 <= i < l.len() && l[i].key_int() == t.key_int();
                        assert(s[i] == l[i]);
                    }
                    if holds_key(s, t.key_int()) {
                        let i = choose|i: int| 0 <= i < s.len() && s[i].key_int() == t.key_int();
                        if i > l.len() {
                            assert(s[i] == r[i - l.len() - 1]);
                        } else if i < l.len() {
                            assert(s[i] == l[i]);
                        }
                    }
                }
                found
            }
        },
    }
}

/// Appends the elements of `t` to `out` in in-order.
fn inorder_into<'a, T>(t: &'a Option<Box<TreeNode<T>>>, out: &mut Vec<&'a T>)
    ensures
        crate::tree::derefs(final(out)@) == crate::tree::derefs(old(out)@) + inorder(*t),
    decreases *t,
{
    match t {
        None => {
            assert(crate::tree::derefs(out@) =~= crate::tree::derefs(out@) + Seq::<T>::empty());
        },
        Some(n) => {
            let ghost o0 = crate::tree::derefs(out@);
            inorder_into(&n.left, out);
            let ghost o1 = out@;
            out.push(&n.data);
            assert(crate::tree::derefs(o1.push(&n.data)) =~= crate::tree::derefs(o1).push(n.data));
            inorder_into(&n.right, out);
            assert(crate::tree::derefs(out@) =~= o0 + (inorder(n.left) + seq![n.data] + inorder(n.right)));
        },
    }
}

/// A binary search tree: in in-order, the keys never decrease.
pub struct BSTTree<T> {
    root: Option<Box<TreeNode<T>>>,
}

impl<T> TreeNode<T> {
    /// The elements of the subtree rooted here, in in-order.
    pub closed spec fn elems(&self) -> Seq<T> {
        inorder(self.left) + seq![self.data] + inorder(self.right)
    }

    /// The element of the node.
    pub closed spec fn value(&self) -> T {
        self.data
    }

    /// The node has no subtree.
    pub closed spec fn is_leaf(&self) -> bool {
        self.left is None && self.right is None
    }

    /// The left subtree.
    pub closed spec fn left_tree(&self) -> Option<Box<TreeNode<T>>> {
        self.left
    }

    /// The right subtree.
    pub closed spec fn right_tree(&self) -> Option<Box<TreeNode<T>>> {
        self.right
    }
}

impl<T> View for BSTTree<T> {
    type V = Seq<T>;

    /// The elements in in-order.
    closed spec fn view(&self) -> Seq<T> {
        inorder(self.root)
    }
}

/// An empty subtree holds no element, and a node and the tree rooted at it
/// hold the same elements.
pub proof fn lemma_inorder_unfold<T>(t: Option<Box<TreeNode<T>>>)
    ensures
        t is None ==> inorder(t) == Seq::<T>::empty(),
        t is Some ==> inorder(t) == t.unwrap().elems(),
        t is Some ==> t.unwrap().elems() == inorder(t.unwrap().left_tree()) + seq![t.unwrap().value()]
            + inorder(t.unwrap().right_tree()),
        t is Some ==> t.unwrap().is_leaf() == (t.unwrap().left_tree() is None && t.unwrap().right_tree() is None),
        t is Some && t.unwrap().is_leaf() ==> t.unwrap().elems() == seq![t.unwrap().value()],
{
    if let Some(n) = t {
        if n.is_leaf() {
            assert(inorder::<T>(None) == Seq::<T>::empty());
            assert(n.elems() =~= seq![n.data]);
        }
    }
}

/// How the shape of a binary search tree, and a graft, unfold at a node.
pub proof fn lemma_shape_unfold<T: IntKey>(a: Option<Box<TreeNode<T>>>, b: Option<Box<TreeNode<T>>>, t: Box<TreeNode<T>>)
    ensures
        a is None ==> bst_shape(a),
        a is Some ==> bst_shape(a) == ({
            let n = a.unwrap();
            &&& forall|i: int| 0 <= i < inorder(n.left_tree()).len() ==> #[trigger] inorder(n.left_tree())[i].key_int() <= n.value().key_int()
            &&& forall|i: int| 0 <= i < inorder(n.right_tree()).len() ==> #[trigger] inorder(n.right_tree())[i].key_int() > n.value().key_int()
            &&& bst_shape(n.left_tree())
            &&& bst_shape(n.right_tree())
        }),
        a is None ==> grafted(a, b, t) == (b == Some(t)),
        a is Some ==> grafted(a, b, t) == ({
            let m = a.unwrap();
            &&& b is Some
            &&& b.unwrap().value() == m.value()
            &&& {
                ||| b.unwrap().right_tree() == m.right_tree() && grafted(m.left_tree(), b.unwrap().left_tree(), t)
                ||| b.unwrap().left_tree() == m.left_tree() && grafted(m.right_tree(), b.unwrap().right_tree(), t)
            }
        }),
{
}

impl<T: IntKey> BSTTree<T> {
    /// The root of the tree, if any.
    pub closed spec fn root_tree(&self) -> Option<Box<TreeNode<T>>> {
        self.root
    }

    /// The tree has the shape of a binary search tree: at every node, the
    /// left subtree holds keys up to the node's, the right one greater keys.
    pub open spec fn is_bst(&self) -> bool {
        bst_shape(self.root_tree())
    }

    /// An empty tree.
    pub fn newnew() -> (r: Self)
        ensures
            r@ == Seq::<T>::empty(),
            r.root_tree() is None,
            r.is_bst(),
    {
        BSTTree { root: None }
    }

    /// A tree of the one element `t`.
    pub fn new(t: T) -> (r: Self)
        ensures
            r@ == seq![t],
            r.root_tree() is Some,
            r.root_tree().unwrap().value() == t,
            r.root_tree().unwrap().is_leaf(),
            r.is_bst(),
    {
        let r = BSTTree { root: Some(Box::new(TreeNode { data: t, left: None, right: None })) };
        assert(inorder::<T>(None) == Seq::<T>::empty());
        assert(r@ =~= seq![t]);
        assert(bst_shape::<T>(None));
        r
    }

    /// The tree whose root is `root`.
    pub fn new_as_node(root: Box<TreeNode<T>>) -> (r: Self)
        ensures
            r@ == root.elems(),
            r.root_tree() == Some(root),
    {
        BSTTree { root: Some(root) }
    }

    /// A node of element `t` over the subtrees `left` and `right`.
    pub fn create_node(t: T, left: Option<Box<TreeNode<T>>>, right: Option<Box<TreeNode<T>>>) -> (r: Box<TreeNode<T>>)
        ensures
            r.value() == t,
            r.elems() == inorder(left) + seq![t] + inorder(right),
            r.is_leaf() == (left is None && right is None),
            r.left_tree() == left,
            r.right_tree() == right,
    {
        Box::new(TreeNode { data: t, left, right })
    }

    /// The elements in in-order, which is key order.
    pub fn middle_root(&self) -> (r: Vec<&T>)
        ensures
            crate::tree::derefs(r@) == self@,
    {
        let mut out: Vec<&T> = Vec::new();
        assert(crate::tree::derefs(out@) =~= Seq::<T>::empty());
        inorder_into(&self.root, &mut out);
        assert(crate::tree::derefs(out@) =~= inorder(self.root));
        out
    }

    /// Puts the subtree `t` in: it goes down to the left at every node of a
    /// key at least its own, to the right at the others, and hangs where it
    /// meets an empty place.  In in-order, its elements land as one block
    /// after every element of a smaller key and before the others.
    pub fn insert_node(&mut self, t: Box<TreeNode<T>>)
        requires
            sorted(old(self)@),
        ensures
            is_lower_spot(old(self)@, t.value().key_int(), lower_spot(old(self)@, t.value().key_int())),
            final(self)@ == splice(old(self)@, lower_spot(old(self)@, t.value().key_int()), t.elems()),
            t.is_leaf() ==> sorted(final(self)@),
            grafted(old(self).root_tree(), final(self).root_tree(), t),
            old(self).is_bst() && t.is_leaf() ==> final(self).is_bst(),
    {
        let ghost s = self@;
        let ghost tn = *t;
        let ghost k = t.data.key_int();
        proof {
            lemma_inorder_unfold(Some(t));
        }
        insert_into(&mut self.root, t);
        proof {
            if tn.is_leaf() {
                let p = lower_spot(s, k);
                let f = self@;
                assert(tn.elems() =~= seq![tn.data]);
                assert forall|i: int, j: int| 0 <= i <= j < f.len() implies f[i].key_int() <= f[j].key_int() by {
                    if i < p && j < p {
                        assert(f[i] == s[i] && f[j] == s[j]);
                    } else if i < p && j == p {
                        assert(f[i] == s[i]);
                    } else if i < p {
                        assert(f[i] == s[i] && f[j] == s[j - 1]);
                    } else if i == p && j > p {
                        assert(f[j] == s[j - 1]);
                    } else if i > p {
                        assert(f[i] == s[i - 1] && f[j] == s[j - 1]);
                    }
                }
            }
        }
    }

    /// Whether some element has the key of `t`.
    pub fn search_node(&mut self, t: &T) -> (r: bool)
        requires
            sorted(old(self)@),
        ensures
            r == holds_key(old(self)@, t.key_int()),
            final(self)@ == old(self)@,
    {
        search_in(&self.root, t)
    }
}

// ----------------------------------------------------------------------
// Laws
// ----------------------------------------------------------------------

/// After `insert_node(t)`, `search_node` finds the key of `t`.
pub proof fn lemma_search_after_insert<T: IntKey>(before: Seq<T>, t: Box<TreeNode<T>>, after: Seq<T>)
    requires
        is_lower_spot(before, t.value().key_int(), lower_spot(before, t.value().key_int())),
        after == splice(before, lower_spot(before, t.value().key_int()), t.elems()),
    ensures
        holds_key(after, t.value().key_int()),
{
    let p = lower_spot(before, t.value().key_int());
    let i = p + inorder(t.left).len();
    assert(t.elems()[inorder(t.left).len() as int] == t.data);
    assert(after[i] == t.data);
}

/// A tree of the shape of a binary search tree is sorted in in-order, so
/// `insert_node` and `search_node` take it.
pub proof fn lemma_bst_sorted<T: IntKey>(t: BSTTree<T>)
    requires
        t.is_bst(),
    ensures
        sorted(t@),
{
    lemma_shape_sorted(t.root);
}

} // verus!
