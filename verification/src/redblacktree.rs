use vstd::prelude::*;
use crate::key::IntKey;
use crate::ordered::{keys_sorted, has_key, first_index, is_insert_spot, insert_spot, lemma_has_key_first_match, lemma_insert_spot_unique, lemma_sorted_parts, lemma_sorted_sub, lemma_insert_sorted, lemma_remove_sorted, lemma_first_match_left, lemma_first_match_here, lemma_first_match_right, lemma_no_key_right, lemma_update_value_sorted, lemma_empty_sorted, lemma_insert_spot_exists, is_first_match, lemma_first_match_unique};

verus! {

/// The colour of a node.
#[derive(PartialEq, Eq, Structural, Clone, Copy)]
pub enum Color {
    Red,
    Black,
}

/// A node: one key-value pair, its colour and its two subtrees.
pub struct RedBlackTreeNode<K, V> {
    data: (K, V),
    color: Color,
    left: Option<Box<RedBlackTreeNode<K, V>>>,
    right: Option<Box<RedBlackTreeNode<K, V>>>,
}

/// An ordered multimap kept as a red-black tree.
///
/// Its model is the in-order sequence of its entries, `self@`, sorted by key.
/// An entry inserted under a key that is already present goes after the
/// entries of that key; lookups and removals by key act on the first entry of
/// that key.
pub struct RedBlackTree<K, V> {
    root: Option<Box<RedBlackTreeNode<K, V>>>,
    len: usize,
}

// ----------------------------------------------------------------------
// The model
// ----------------------------------------------------------------------

/// The in-order sequence of the entries of a subtree.
pub closed spec fn seq_of<K, V>(t: Option<Box<RedBlackTreeNode<K, V>>>) -> Seq<(K, V)>
    decreases t,
{
    match t {
        None => Seq::empty(),
        Some(n) => seq_of(n.left) + seq![n.data] + seq_of(n.right),
    }
}

/// A node's colour is red.
pub closed spec fn is_red<K, V>(t: Option<Box<RedBlackTreeNode<K, V>>>) -> bool {
    match t {
        Some(n) => n.color == Color::Red,
        None => false,
    }
}

/// A node is present and black.
pub closed spec fn is_black_node<K, V>(t: Option<Box<RedBlackTreeNode<K, V>>>) -> bool {
    match t {
        Some(n) => n.color == Color::Black,
        None => false,
    }
}

/// The colour of a subtree's root; an empty subtree counts as black.
pub closed spec fn color_of<K, V>(t: Option<Box<RedBlackTreeNode<K, V>>>) -> Color {
    match t {
        Some(n) => n.color,
        None => Color::Black,
    }
}

/// The number of black nodes on the leftmost path of a subtree.
pub closed spec fn bh<K, V>(t: Option<Box<RedBlackTreeNode<K, V>>>) -> nat
    decreases t,
{
    match t {
        None => 0,
        Some(n) => bh(n.left) + (if n.color == Color::Black {
            1nat
        } else {
            0nat
        }),
    }
}

/// Every path from a node down to an empty subtree meets the same number of
/// black nodes.
pub closed spec fn invh<K, V>(t: Option<Box<RedBlackTreeNode<K, V>>>) -> bool
    decreases t,
{
    match t {
        None => true,
        Some(n) => invh(n.left) && invh(n.right) && bh(n.left) == bh(n.right),
    }
}

/// No red node has a red child.
pub closed spec fn invc<K, V>(t: Option<Box<RedBlackTreeNode<K, V>>>) -> bool
    decreases t,
{
    match t {
        None => true,
        Some(n) => invc(n.left) && invc(n.right) && (n.color == Color::Red ==> color_of(n.left)
            == Color::Black && color_of(n.right) == Color::Black),
    }
}

/// No red node below the root has a red child (the root may be red with a red child).
pub closed spec fn invc2<K, V>(t: Option<Box<RedBlackTreeNode<K, V>>>) -> bool {
    match t {
        None => true,
        Some(n) => invc(n.left) && invc(n.right),
    }
}

/// A red-black tree: black root, no red node with a red child, and the same
/// number of black nodes on every path.
pub closed spec fn rbt<K, V>(t: Option<Box<RedBlackTreeNode<K, V>>>) -> bool {
    invc(t) && invh(t) && color_of(t) == Color::Black
}

/// Two subtrees have the same shape and colours; only the entries may differ.
pub closed spec fn same_shape<K, V>(a: Option<Box<RedBlackTreeNode<K, V>>>, b: Option<Box<RedBlackTreeNode<K, V>>>) -> bool
    decreases a,
{
    match (a, b) {
        (None, None) => true,
        (Some(x), Some(y)) => x.color == y.color && same_shape(x.left, y.left) && same_shape(x.right, y.right),
        _ => false,
    }
}

/// Subtrees of the same shape have the same colour properties (for all pairs).
proof fn lemma_same_shape_all<K, V>()
    ensures
        forall|a: Option<Box<RedBlackTreeNode<K, V>>>, b: Option<Box<RedBlackTreeNode<K, V>>>|
            #[trigger] same_shape(a, b) ==> bh(a) == bh(b) && invh(a) == invh(b) && invc(a) == invc(
                b,
            ) && color_of(a) == color_of(b),
{
    assert forall|a: Option<Box<RedBlackTreeNode<K, V>>>, b: Option<Box<RedBlackTreeNode<K, V>>>|
        #[trigger] same_shape(a, b) implies bh(a) == bh(b) && invh(a) == invh(b) && invc(a) == invc(
        b,
    ) && color_of(a) == color_of(b) by {
        lemma_same_shape(a, b);
    }
}

/// Every subtree has its own shape.
proof fn lemma_same_shape_refl<K, V>(a: Option<Box<RedBlackTreeNode<K, V>>>)
    ensures
        same_shape(a, a),
    decreases a,
{
    if let Some(x) = a {
        lemma_same_shape_refl(x.left);
        lemma_same_shape_refl(x.right);
    }
}

/// Subtrees of the same shape have the same colour properties.
proof fn lemma_same_shape<K, V>(a: Option<Box<RedBlackTreeNode<K, V>>>, b: Option<Box<RedBlackTreeNode<K, V>>>)
    requires
        same_shape(a, b),
    ensures
        bh(a) == bh(b),
        invh(a) == invh(b),
        invc(a) == invc(b),
        color_of(a) == color_of(b),
    decreases a,
{
    match (a, b) {
        (Some(x), Some(y)) => {
            lemma_same_shape(x.left, y.left);
            lemma_same_shape(x.right, y.right);
        },
        _ => {},
    }
}

// ----------------------------------------------------------------------
// Node helpers
// ----------------------------------------------------------------------

/// A node of the given colour, subtrees and entry.
fn mk<K, V>(
    color: Color,
    left: Option<Box<RedBlackTreeNode<K, V>>>,
    data: (K, V),
    right: Option<Box<RedBlackTreeNode<K, V>>>,
) -> (r: Box<RedBlackTreeNode<K, V>>)
    ensures
        r.color == color,
        r.left == left,
        r.data == data,
        r.right == right,
        seq_of(Some(r)) == seq_of(left) + seq![data] + seq_of(right),
{
    Box::new(RedBlackTreeNode { data, color, left, right })
}

/// The colour, subtrees and entry of a node.
fn split<K, V>(b: Box<RedBlackTreeNode<K, V>>) -> (r: (
    Color,
    Option<Box<RedBlackTreeNode<K, V>>>,
    (K, V),
    Option<Box<RedBlackTreeNode<K, V>>>,
))
    ensures
        r.0 == b.color,
        r.1 == b.left,
        r.2 == b.data,
        r.3 == b.right,
        seq_of(Some(b)) == seq_of(r.1) + seq![r.2] + seq_of(r.3),
{
    let n = *b;
    (n.color, n.left, n.data, n.right)
}

/// Whether the subtree is a red node.
fn red_link<K, V>(t: &Option<Box<RedBlackTreeNode<K, V>>>) -> (r: bool)
    ensures
        r == is_red(*t),
{
    match t {
        Some(b) => match b.color {
            Color::Red => true,
            Color::Black => false,
        },
        None => false,
    }
}

/// Whether the subtree is a black node (an empty one is not).
fn black_node<K, V>(t: &Option<Box<RedBlackTreeNode<K, V>>>) -> (r: bool)
    ensures
        r == is_black_node(*t),
{
    match t {
        Some(b) => match b.color {
            Color::Red => false,
            Color::Black => true,
        },
        None => false,
    }
}

/// Whether the left subtree of a node is a red node.
fn left_red<K, V>(t: &Option<Box<RedBlackTreeNode<K, V>>>) -> (r: bool)
    ensures
        r == (t.is_some() && is_red(t.unwrap().left)),
{
    match t {
        Some(b) => red_link(&b.left),
        None => false,
    }
}

/// Whether the right subtree of a node is a red node.
fn right_red<K, V>(t: &Option<Box<RedBlackTreeNode<K, V>>>) -> (r: bool)
    ensures
        r == (t.is_some() && is_red(t.unwrap().right)),
{
    match t {
        Some(b) => red_link(&b.right),
        None => false,
    }
}

/// Whether the left subtree of a node is a black node.
fn left_black<K, V>(t: &Option<Box<RedBlackTreeNode<K, V>>>) -> (r: bool)
    ensures
        r == (t.is_some() && is_black_node(t.unwrap().left)),
{
    match t {
        Some(b) => black_node(&b.left),
        None => false,
    }
}

/// Whether the right subtree of a node is a black node.
fn right_black<K, V>(t: &Option<Box<RedBlackTreeNode<K, V>>>) -> (r: bool)
    ensures
        r == (t.is_some() && is_black_node(t.unwrap().right)),
{
    match t {
        Some(b) => black_node(&b.right),
        None => false,
    }
}

/// Paints the root black.
fn make_black<K, V>(t: Option<Box<RedBlackTreeNode<K, V>>>) -> (r: Option<Box<
    RedBlackTreeNode<K, V>,
>>)
    ensures
        seq_of(r) == seq_of(t),
        (invc2(t) || invc(t)) && invh(t) ==> invc(r) && invh(r) && color_of(r) == Color::Black,
{
    match t {
        None => None,
        Some(b) => {
            let (_c, l, x, r) = split(b);
            Some(mk(Color::Black, l, x, r))
        },
    }
}

/// Repaints a black node red.
fn sub1<K, V>(t: Option<Box<RedBlackTreeNode<K, V>>>) -> (r: Option<Box<RedBlackTreeNode<K, V>>>)
    ensures
        seq_of(r) == seq_of(t),
        t.is_none() ==> r.is_none(),
        t.is_some() ==> r.is_some() && r.unwrap().color == Color::Red && r.unwrap().left
            == t.unwrap().left && r.unwrap().right == t.unwrap().right,
{
    match t {
        None => None,
        Some(b) => {
            let (_c, l, x, r) = split(b);
            Some(mk(Color::Red, l, x, r))
        },
    }
}

/// Rotation for a red left child `l` whose own left child is red.
fn bal_ll<K, V>(
    l: Box<RedBlackTreeNode<K, V>>,
    x: (K, V),
    r: Option<Box<RedBlackTreeNode<K, V>>>,
) -> (res: Box<RedBlackTreeNode<K, V>>)
    requires
        l.left.is_some(),
    ensures
        seq_of(Some(res)) == seq_of(Some(l)) + seq![x] + seq_of(r),
        l.color == Color::Red && is_red(l.left) && invh(Some(l)) && invh(r) && invc2(Some(l))
            && invc(r) && bh(Some(l)) == bh(r) ==> invc(Some(res)) && invh(Some(res)) && bh(
            Some(res),
        ) == bh(Some(l)) + 1,
{
    let ghost sl = seq_of(Some(l));
    let ghost sr = seq_of(r);
    let ghost gl = Some(l);
    let ghost go = r;
    let (_c1, ll, y, c) = split(l);
    let ghost gll = ll;
    let (_c2, a, w, b) = split(ll.unwrap());
    let nl = mk(Color::Black, a, w, b);
    let nr = mk(Color::Black, c, x, r);
    let ghost gnl = Some(nl);
    let ghost gnr = Some(nr);
    let res = mk(Color::Red, Some(nl), y, Some(nr));
    assert(seq_of(Some(res)) =~= sl + seq![x] + sr);
    proof {
        if gl.unwrap().color == Color::Red && is_red(gll) && invh(gl) && invc2(gl) && invh(go)
            && invc(go) && bh(gl) == bh(go) {
            assert(invc(gll) && invc(c) && invh(gll) && invh(c) && bh(gll) == bh(c));
            assert(bh(gl) == bh(gll));
            assert(invc(a) && invc(b) && invh(a) && invh(b) && bh(a) == bh(b));
            assert(bh(gll) == bh(a));
            assert(invc(gnl) && invh(gnl) && invc(gnr) && invh(gnr));
            assert(bh(gnl) == bh(gnr));
        }
    }
    res
}

/// Rotation for a red left child `l` whose right child is red.
fn bal_lr<K, V>(
    l: Box<RedBlackTreeNode<K, V>>,
    x: (K, V),
    r: Option<Box<RedBlackTreeNode<K, V>>>,
) -> (res: Box<RedBlackTreeNode<K, V>>)
    requires
        l.right.is_some(),
    ensures
        seq_of(Some(res)) == seq_of(Some(l)) + seq![x] + seq_of(r),
        l.color == Color::Red && is_red(l.right) && invh(Some(l)) && invh(r) && invc2(Some(l))
            && invc(r) && bh(Some(l)) == bh(r) ==> invc(Some(res)) && invh(Some(res)) && bh(
            Some(res),
        ) == bh(Some(l)) + 1,
{
    let ghost sl = seq_of(Some(l));
    let ghost sr = seq_of(r);
    let ghost gl = Some(l);
    let ghost go = r;
    let (_c1, a, w, lr) = split(l);
    let ghost glr = lr;
    let (_c2, b, y, c) = split(lr.unwrap());
    let nl = mk(Color::Black, a, w, b);
    let nr = mk(Color::Black, c, x, r);
    let ghost gnl = Some(nl);
    let ghost gnr = Some(nr);
    let res = mk(Color::Red, Some(nl), y, Some(nr));
    assert(seq_of(Some(res)) =~= sl + seq![x] + sr);
    proof {
        if gl.unwrap().color == Color::Red && is_red(glr) && invh(gl) && invc2(gl) && invh(go)
            && invc(go) && bh(gl) == bh(go) {
            assert(invc(a) && invc(glr) && invh(a) && invh(glr) && bh(a) == bh(glr));
            assert(bh(gl) == bh(a));
            assert(invc(b) && invc(c) && invh(b) && invh(c) && bh(b) == bh(c));
            assert(bh(glr) == bh(b));
            assert(invc(gnl) && invh(gnl) && invc(gnr) && invh(gnr));
            assert(bh(gnl) == bh(gnr));
        }
    }
    res
}

/// Rotation for a red right child `r` whose right child is red.
fn bal_rr<K, V>(
    l: Option<Box<RedBlackTreeNode<K, V>>>,
    x: (K, V),
    r: Box<RedBlackTreeNode<K, V>>,
) -> (res: Box<RedBlackTreeNode<K, V>>)
    requires
        r.right.is_some(),
    ensures
        seq_of(Some(res)) == seq_of(l) + seq![x] + seq_of(Some(r)),
        r.color == Color::Red && is_red(r.right) && invh(l) && invh(Some(r)) && invc(l) && invc2(
            Some(r),
        ) && bh(l) == bh(Some(r)) ==> invc(Some(res)) && invh(Some(res)) && bh(Some(res)) == bh(l)
            + 1,
{
    let ghost sl = seq_of(l);
    let ghost sr = seq_of(Some(r));
    let ghost gr = Some(r);
    let ghost go = l;
    let (_c1, b, y, rr) = split(r);
    let ghost grr = rr;
    let (_c2, c, z, d) = split(rr.unwrap());
    let nl = mk(Color::Black, l, x, b);
    let nr = mk(Color::Black, c, z, d);
    let ghost gnl = Some(nl);
    let ghost gnr = Some(nr);
    let res = mk(Color::Red, Some(nl), y, Some(nr));
    assert(seq_of(Some(res)) =~= sl + seq![x] + sr);
    proof {
        if gr.unwrap().color == Color::Red && is_red(grr) && invh(gr) && invc2(gr) && invh(go)
            && invc(go) && bh(gr) == bh(go) {
            assert(invc(b) && invc(grr) && invh(b) && invh(grr) && bh(b) == bh(grr));
            assert(bh(gr) == bh(b));
            assert(invc(c) && invc(d) && invh(c) && invh(d) && bh(c) == bh(d));
            assert(bh(grr) == bh(c));
            assert(invc(gnl) && invh(gnl) && invc(gnr) && invh(gnr));
            assert(bh(gnl) == bh(gnr));
        }
    }
    res
}

/// Rotation for a red right child `r` whose left child is red.
fn bal_rl<K, V>(
    l: Option<Box<RedBlackTreeNode<K, V>>>,
    x: (K, V),
    r: Box<RedBlackTreeNode<K, V>>,
) -> (res: Box<RedBlackTreeNode<K, V>>)
    requires
        r.left.is_some(),
    ensures
        seq_of(Some(res)) == seq_of(l) + seq![x] + seq_of(Some(r)),
        r.color == Color::Red && is_red(r.left) && invh(l) && invh(Some(r)) && invc(l) && invc2(
            Some(r),
        ) && bh(l) == bh(Some(r)) ==> invc(Some(res)) && invh(Some(res)) && bh(Some(res)) == bh(l)
            + 1,
{
    let ghost sl = seq_of(l);
    let ghost sr = seq_of(Some(r));
    let ghost gr = Some(r);
    let ghost go = l;
    let (_c1, rl, z, d) = split(r);
    let ghost grl = rl;
    let (_c2, b, y, c) = split(rl.unwrap());
    let nl = mk(Color::Black, l, x, b);
    let nr = mk(Color::Black, c, z, d);
    let ghost gnl = Some(nl);
    let ghost gnr = Some(nr);
    let res = mk(Color::Red, Some(nl), y, Some(nr));
    assert(seq_of(Some(res)) =~= sl + seq![x] + sr);
    proof {
        if gr.unwrap().color == Color::Red && is_red(grl) && invh(gr) && invc2(gr) && invh(go)
            && invc(go) && bh(gr) == bh(go) {
            assert(invc(grl) && invc(d) && invh(grl) && invh(d) && bh(grl) == bh(d));
            assert(bh(gr) == bh(grl));
            assert(invc(b) && invc(c) && invh(b) && invh(c) && bh(b) == bh(c));
            assert(bh(grl) == bh(b));
            assert(invc(gnl) && invh(gnl) && invc(gnr) && invh(gnr));
            assert(bh(gnl) == bh(gnr));
        }
    }
    res
}

/// A black node over `l`, `x`, `r`, after rotating away a red left child that
/// has a red child of its own.
fn bali_l<K, V>(
    l: Option<Box<RedBlackTreeNode<K, V>>>,
    x: (K, V),
    r: Option<Box<RedBlackTreeNode<K, V>>>,
) -> (res: Box<RedBlackTreeNode<K, V>>)
    ensures
        seq_of(Some(res)) == seq_of(l) + seq![x] + seq_of(r),
        invh(l) && invh(r) && invc2(l) && invc(r) && bh(l) == bh(r) ==> invc(Some(res)) && invh(
            Some(res),
        ) && bh(Some(res)) == bh(l) + 1,
{
    if red_link(&l) && left_red(&l) {
        bal_ll(l.unwrap(), x, r)
    } else if red_link(&l) && right_red(&l) {
        bal_lr(l.unwrap(), x, r)
    } else {
        let ghost gl = l;
        let res = mk(Color::Black, l, x, r);
        proof {
            if invc2(gl) {
                assert(invc(gl));
            }
        }
        res
    }
}

/// A black node over `l`, `x`, `r`, after rotating away a red right child that
/// has a red child of its own.
fn bali_r<K, V>(
    l: Option<Box<RedBlackTreeNode<K, V>>>,
    x: (K, V),
    r: Option<Box<RedBlackTreeNode<K, V>>>,
) -> (res: Box<RedBlackTreeNode<K, V>>)
    ensures
        seq_of(Some(res)) == seq_of(l) + seq![x] + seq_of(r),
        invh(l) && invh(r) && invc(l) && invc2(r) && bh(l) == bh(r) ==> invc(Some(res)) && invh(
            Some(res),
        ) && bh(Some(res)) == bh(l) + 1,
{
    if red_link(&r) && right_red(&r) {
        bal_rr(l, x, r.unwrap())
    } else if red_link(&r) && left_red(&r) {
        bal_rl(l, x, r.unwrap())
    } else {
        let ghost gr = r;
        let res = mk(Color::Black, l, x, r);
        proof {
            if invc2(gr) {
                assert(invc(gr));
            }
        }
        res
    }
}

// ----------------------------------------------------------------------
// Insertion
// ----------------------------------------------------------------------

/// Inserts `(k, v)` after every entry whose key is at most `k`, rebalancing
/// on the way up; the root may come out red.
fn ins<K: IntKey, V>(t: Option<Box<RedBlackTreeNode<K, V>>>, k: K, v: V) -> (r: Box<
    RedBlackTreeNode<K, V>,
>)
    requires
        keys_sorted(seq_of(t)),
    ensures
        exists|p: int|
            is_insert_spot(seq_of(t), k.key_int(), p) && seq_of(Some(r)) == seq_of(t).insert(
                p,
                (k, v),
            ),
        invc(t) && invh(t) ==> invc2(Some(r)) && invh(Some(r)) && bh(Some(r)) == bh(t) && (color_of(t)
            == Color::Black ==> invc(Some(r))),
    decreases t,
{
    let ghost gt = t;
    let ghost pre = invc(t) && invh(t);
    let ghost s = seq_of(t);
    let ghost kk = k.key_int();
    match t {
        None => {
            let r = mk(Color::Red, None, (k, v), None);
            assert(is_insert_spot(s, kk, 0));
            assert(seq_of(Some(r)) =~= s.insert(0, (k, v)));
            r
        },
        Some(b) => {
            let ghost c0 = b.color;
            let (c, a, y, bb) = split(b);
            proof {
                if pre {
                    assert(invh(a) && invh(bb) && invc(a) && invc(bb) && bh(a) == bh(bb));
                }
            }
            let ghost ga = a;
            let ghost gbb = bb;
            let ghost sa = seq_of(a);
            let ghost sb = seq_of(bb);
            assert(s == sa + seq![y] + sb);
            proof {
                lemma_sorted_parts(s, sa, y, sb);
            }
            if k.key_lt(&y.0) {
                let na = ins(a, k, v);
                let ghost p = choose|p: int|
                    is_insert_spot(sa, kk, p) && seq_of(Some(na)) == sa.insert(p, (k, v));
                assert(is_insert_spot(s, kk, p)) by {
                    assert forall|i: int| p <= i < s.len() implies s[i].0.key_int() > kk by {
                        if i < sa.len() {
                            assert(s[i] == sa[i]);
                        } else {
                            assert(s[sa.len() as int] == y);
                            assert(s[sa.len() as int].0.key_int() <= s[i].0.key_int());
                        }
                    }
                    assert forall|i: int| 0 <= i < p implies s[i].0.key_int() <= kk by {
                        assert(s[i] == sa[i]);
                    }
                }
                let ghost gna = Some(na);
                let r = match c {
                    Color::Black => bali_l(Some(na), y, bb),
                    Color::Red => {
                        proof {
                            if pre {
                                assert(color_of(ga) == Color::Black);
                                assert(invc(gna));
                            }
                        }
                        mk(Color::Red, Some(na), y, bb)
                    },
                };
                assert(seq_of(Some(r)) =~= s.insert(p, (k, v)));
                r
            } else {
                let nb = ins(bb, k, v);
                let ghost q = choose|q: int|
                    is_insert_spot(sb, kk, q) && seq_of(Some(nb)) == sb.insert(q, (k, v));
                let ghost p = sa.len() + 1 + q;
                assert(is_insert_spot(s, kk, p)) by {
                    assert forall|i: int| p <= i < s.len() implies s[i].0.key_int() > kk by {
                        assert(s[i] == sb[i - sa.len() - 1]);
                    }
                    assert forall|i: int| 0 <= i < p implies s[i].0.key_int() <= kk by {
                        if i < sa.len() {
                            assert(s[i].0.key_int() <= s[sa.len() as int].0.key_int());
                        } else if i > sa.len() {
                            assert(s[i] == sb[i - sa.len() - 1]);
                        }
                    }
                }
                let ghost gnb = Some(nb);
                let r = match c {
                    Color::Black => bali_r(a, y, Some(nb)),
                    Color::Red => {
                        proof {
                            if pre {
                                assert(color_of(gbb) == Color::Black);
                                assert(invc(gnb));
                            }
                        }
                        mk(Color::Red, a, y, Some(nb))
                    },
                };
                assert(seq_of(Some(r)) =~= s.insert(p, (k, v)));
                r
            }
        },
    }
}

// ----------------------------------------------------------------------
// Lookup
// ----------------------------------------------------------------------

/// The value of the first entry of key `k` below `t`.
fn find_in<'a, K: IntKey, V>(t: &'a Option<Box<RedBlackTreeNode<K, V>>>, k: &K) -> (r: Option<&'a V>)
    requires
        keys_sorted(seq_of(*t)),
    ensures
        r.is_some() == has_key(seq_of(*t), k.key_int()),
        r.is_some() ==> *r.unwrap() == seq_of(*t)[first_index(seq_of(*t), k.key_int())].1,
    decreases *t,
{
    match t {
        None => None,
        Some(b) => {
            let ghost s = seq_of(*t);
            let ghost sa = seq_of(b.left);
            let ghost sb = seq_of(b.right);
            let ghost kk = k.key_int();
            assert(s == sa + seq![b.data] + sb);
            proof {
                lemma_sorted_sub(s, sa, b.data, sb);
            }
            if k.key_lt(&b.data.0) {
                proof {
                    lemma_no_key_right(s, sa, b.data, sb, kk);
                    if has_key(sa, kk) {
                        lemma_first_match_left(s, sa, b.data, sb, kk);
                        lemma_has_key_first_match(sa, kk);
                        assert(s[first_index(sa, kk)] == sa[first_index(sa, kk)]);
                    }
                }
                find_in(&b.left, k)
            } else if b.data.0.key_lt(k) {
                proof {
                    lemma_first_match_right(s, sa, b.data, sb, kk);
                    if has_key(sb, kk) {
                        lemma_has_key_first_match(sb, kk);
                        let j = first_index(sb, kk);
                        assert(s[sa.len() + 1 + j] == sb[j]);
                    }
                }
                find_in(&b.right, k)
            } else {
                let l = find_in(&b.left, k);
                match l {
                    Some(v) => {
                        proof {
                            lemma_first_match_left(s, sa, b.data, sb, kk);
                            lemma_has_key_first_match(sa, kk);
                            assert(s[first_index(sa, kk)] == sa[first_index(sa, kk)]);
                        }
                        Some(v)
                    },
                    None => {
                        proof {
                            lemma_first_match_here(s, sa, b.data, sb, kk);
                        }
                        Some(&b.data.1)
                    },
                }
            }
        },
    }
}

/// The value of the first entry of key `k` below `t`, to change in place.
#[verifier::spinoff_prover]
#[verifier::rlimit(30)]
fn find_mut_in<'a, K: IntKey, V>(t: &'a mut Option<Box<RedBlackTreeNode<K, V>>>, k: &K) -> (r: Option<&'a mut V>)
    requires
        keys_sorted(seq_of(*old(t))),
    ensures
        r.is_some() == has_key(seq_of(*old(t)), k.key_int()),
        r.is_some() ==> {
            let s = seq_of(*old(t));
            let i = first_index(s, k.key_int());
            &&& *r.unwrap() == s[i].1
            &&& seq_of(*final(t)) == s.update(i, (s[i].0, *final(r.unwrap())))
        },
        r.is_none() ==> *final(t) == *old(t),
        same_shape(*final(t), *old(t)),
    decreases *old(t),
{
    let ghost s = seq_of(*t);
    let ghost ot = *t;
    proof {
        if let Some(n) = ot {
            lemma_same_shape_refl(n.left);
            lemma_same_shape_refl(n.right);
        }
    }
    let ghost sa = match ot { Some(n) => seq_of(n.left), None => Seq::empty() };
    let ghost sb = match ot { Some(n) => seq_of(n.right), None => Seq::empty() };
    let ghost kk = k.key_int();
    match t {
        None => None,
        Some(b) => {
            let ghost y = b.data;
            assert(s == sa + seq![b.data] + sb);
            proof {
                lemma_sorted_sub(s, sa, b.data, sb);
            }
            if k.key_lt(&b.data.0) {
                proof {
                    lemma_no_key_right(s, sa, b.data, sb, kk);
                    if has_key(sa, kk) {
                        lemma_first_match_left(s, sa, b.data, sb, kk);
                        lemma_has_key_first_match(sa, kk);
                        lemma_update_in_left(sa, y, sb, first_index(sa, kk));
                    }
                }
                find_mut_in(&mut b.left, k)
            } else if b.data.0.key_lt(k) {
                proof {
                    lemma_first_match_right(s, sa, b.data, sb, kk);
                    if has_key(sb, kk) {
                        lemma_has_key_first_match(sb, kk);
                        lemma_update_in_right(sa, y, sb, first_index(sb, kk));
                    }
                }
                find_mut_in(&mut b.right, k)
            } else {
                if find_in(&b.left, k).is_some() {
                    proof {
                        lemma_first_match_left(s, sa, b.data, sb, kk);
                        lemma_has_key_first_match(sa, kk);
                        lemma_update_in_left(sa, y, sb, first_index(sa, kk));
                    }
                    find_mut_in(&mut b.left, k)
                } else {
                    proof {
                        lemma_first_match_here(s, sa, b.data, sb, kk);
                        lemma_update_here(sa, y, sb);
                    }
                    Some(&mut b.data.1)
                }
            }
        },
    }
}

// ----------------------------------------------------------------------
// Deletion
// ----------------------------------------------------------------------

/// `R(B(bl, x, a), y, bali_r(b, z, red(c)))`: the rotation of `balleft` when
/// the right sibling `r = R(B(a, y, b), z, c)` is red with a black left child.
fn balleft_rot<K, V>(
    bl: Option<Box<RedBlackTreeNode<K, V>>>,
    x: (K, V),
    r: Box<RedBlackTreeNode<K, V>>,
) -> (res: Box<RedBlackTreeNode<K, V>>)
    requires
        r.left.is_some(),
    ensures
        seq_of(Some(res)) == seq_of(bl) + seq![x] + seq_of(Some(r)),
        r.color == Color::Red && is_black_node(r.left) && color_of(bl) == Color::Black && invh(bl)
            && invh(Some(r)) && bh(bl) + 1 == bh(Some(r)) && invc2(bl) && invc(Some(r)) ==> invh(
            Some(res),
        ) && bh(Some(res)) == bh(Some(r)) && invc2(Some(res)),
{
    let ghost sl = seq_of(bl);
    let ghost sr = seq_of(Some(r));
    let ghost gr = Some(r);
    let ghost gbl = bl;
    let (_c1, rl, z, c) = split(r);
    let ghost grl = rl;
    let ghost gc = c;
    let (_c2, a, y, b) = split(rl.unwrap());
    let nl = mk(Color::Black, bl, x, a);
    let ghost gnl = Some(nl);
    let rc = sub1(c);
    let ghost grc = rc;
    let nr = bali_r(b, z, rc);
    let ghost gnr = Some(nr);
    let res = mk(Color::Red, Some(nl), y, Some(nr));
    assert(seq_of(Some(res)) =~= sl + seq![x] + sr);
    proof {
        if gr.unwrap().color == Color::Red && is_black_node(grl) && color_of(gbl) == Color::Black
            && invh(gbl) && invh(gr) && bh(gbl) + 1 == bh(gr) && invc2(gbl) && invc(gr) {
            assert(invc(grl) && invc(gc) && color_of(gc) == Color::Black);
            assert(invh(grl) && invh(gc) && bh(grl) == bh(gc) && bh(gr) == bh(grl));
            assert(invh(a) && invh(b) && bh(a) == bh(b) && invc(a) && invc(b));
            assert(bh(grl) == bh(a) + 1);
            assert(gc.is_some());
            assert(bh(grc) + 1 == bh(gc));
            assert(invh(grc) && invc2(grc));
            assert(invc(gbl));
            assert(invc(gnl) && invh(gnl) && bh(gnl) == bh(a) + 1);
            assert(invc(gnr) && invh(gnr) && bh(gnr) == bh(a) + 1);
        }
    }
    res
}

/// Rebuilds a node whose left subtree lost one black level.
fn balleft<K, V>(
    bl: Option<Box<RedBlackTreeNode<K, V>>>,
    x: (K, V),
    r: Option<Box<RedBlackTreeNode<K, V>>>,
) -> (res: Option<Box<RedBlackTreeNode<K, V>>>)
    ensures
        seq_of(res) == seq_of(bl) + seq![x] + seq_of(r),
        invh(bl) && invh(r) && bh(bl) + 1 == bh(r) && invc2(bl) && invc(r) ==> invh(res) && bh(res)
            == bh(r) && invc2(res) && (color_of(r) == Color::Black ==> invc(res)),
{
    let ghost gbl = bl;
    let ghost gr = r;
    let ghost pre = invh(bl) && invh(r) && bh(bl) + 1 == bh(r) && invc2(bl) && invc(r);
    if red_link(&bl) {
        let ghost sl = seq_of(bl);
        let (_c, a, y, b) = split(bl.unwrap());
        let nl = mk(Color::Black, a, y, b);
        let ghost gnl = Some(nl);
        let res = mk(Color::Red, Some(nl), x, r);
        assert(seq_of(Some(res)) =~= sl + seq![x] + seq_of(r));
        proof {
            if pre {
                assert(invc(a) && invc(b) && invh(a) && invh(b) && bh(a) == bh(b));
                assert(bh(gbl) == bh(a));
                assert(invc(gnl) && invh(gnl) && bh(gnl) == bh(a) + 1);
            }
        }
        Some(res)
    } else if black_node(&r) {
        let rr = sub1(r);
        let ghost grr = rr;
        let res = bali_r(bl, x, rr);
        proof {
            if pre {
                assert(bh(grr) + 1 == bh(gr));
                assert(invh(grr) && invc2(grr));
                assert(invc(gbl));
                assert(invc(Some(res)));
            }
        }
        Some(res)
    } else if red_link(&r) && left_black(&r) {
        Some(balleft_rot(bl, x, r.unwrap()))
    } else {
        proof {
            if pre {
                let n = gr.unwrap();
                assert(gr.is_some());
                assert(n.color == Color::Red);
                assert(color_of(n.left) == Color::Black);
                assert(n.left.is_none());
                assert(bh(gr) == 0);
            }
        }
        Some(mk(Color::Red, bl, x, r))
    }
}

/// `R(bali_l(red(a), w, b), y, B(c, x, br))`: the rotation of `balright` when
/// the left sibling `l = R(a, w, B(b, y, c))` is red with a black right child.
fn balright_rot<K, V>(
    l: Box<RedBlackTreeNode<K, V>>,
    x: (K, V),
    br: Option<Box<RedBlackTreeNode<K, V>>>,
) -> (res: Box<RedBlackTreeNode<K, V>>)
    requires
        l.right.is_some(),
    ensures
        seq_of(Some(res)) == seq_of(Some(l)) + seq![x] + seq_of(br),
        l.color == Color::Red && is_black_node(l.right) && color_of(br) == Color::Black && invh(
            Some(l),
        ) && invh(br) && bh(Some(l)) == bh(br) + 1 && invc(Some(l)) && invc2(br) ==> invh(
            Some(res),
        ) && bh(Some(res)) == bh(Some(l)) && invc2(Some(res)),
{
    let ghost sl = seq_of(Some(l));
    let ghost sr = seq_of(br);
    let ghost gl = Some(l);
    let ghost gbr = br;
    let (_c1, a, w, lr) = split(l);
    let ghost glr = lr;
    let ghost ga = a;
    let (_c2, b, y, c) = split(lr.unwrap());
    let ra = sub1(a);
    let ghost gra = ra;
    let nl = bali_l(ra, w, b);
    let ghost gnl = Some(nl);
    let nr = mk(Color::Black, c, x, br);
    let ghost gnr = Some(nr);
    let res = mk(Color::Red, Some(nl), y, Some(nr));
    assert(seq_of(Some(res)) =~= sl + seq![x] + sr);
    proof {
        if gl.unwrap().color == Color::Red && is_black_node(glr) && color_of(gbr) == Color::Black
            && invh(gl) && invh(gbr) && bh(gl) == bh(gbr) + 1 && invc(gl) && invc2(gbr) {
            assert(invc(ga) && invc(glr) && color_of(ga) == Color::Black);
            assert(invh(ga) && invh(glr) && bh(ga) == bh(glr) && bh(gl) == bh(ga));
            assert(invh(b) && invh(c) && bh(b) == bh(c) && invc(b) && invc(c));
            assert(bh(glr) == bh(b) + 1);
            assert(ga.is_some());
            assert(bh(gra) + 1 == bh(ga));
            assert(invh(gra) && invc2(gra));
            assert(invc(gbr));
            assert(invc(gnl) && invh(gnl) && bh(gnl) == bh(b) + 1);
            assert(invc(gnr) && invh(gnr) && bh(gnr) == bh(c) + 1);
        }
    }
    res
}

/// Rebuilds a node whose right subtree lost one black level.
fn balright<K, V>(
    l: Option<Box<RedBlackTreeNode<K, V>>>,
    x: (K, V),
    br: Option<Box<RedBlackTreeNode<K, V>>>,
) -> (res: Option<Box<RedBlackTreeNode<K, V>>>)
    ensures
        seq_of(res) == seq_of(l) + seq![x] + seq_of(br),
        invh(l) && invh(br) && bh(l) == bh(br) + 1 && invc(l) && invc2(br) ==> invh(res) && bh(res)
            == bh(l) && invc2(res) && (color_of(l) == Color::Black ==> invc(res)),
{
    let ghost gl = l;
    let ghost gbr = br;
    let ghost pre = invh(l) && invh(br) && bh(l) == bh(br) + 1 && invc(l) && invc2(br);
    if red_link(&br) {
        let ghost sr = seq_of(br);
        let (_c, b, y, c) = split(br.unwrap());
        let nr = mk(Color::Black, b, y, c);
        let ghost gnr = Some(nr);
        let res = mk(Color::Red, l, x, Some(nr));
        assert(seq_of(Some(res)) =~= seq_of(l) + seq![x] + sr);
        proof {
            if pre {
                assert(invc(b) && invc(c) && invh(b) && invh(c) && bh(b) == bh(c));
                assert(bh(gbr) == bh(b));
                assert(invc(gnr) && invh(gnr) && bh(gnr) == bh(b) + 1);
            }
        }
        Some(res)
    } else if black_node(&l) {
        let rl = sub1(l);
        let ghost grl = rl;
        let res = bali_l(rl, x, br);
        proof {
            if pre {
                assert(bh(grl) + 1 == bh(gl));
                assert(invh(grl) && invc2(grl));
                assert(invc(gbr));
                assert(invc(Some(res)));
            }
        }
        Some(res)
    } else if red_link(&l) && right_black(&l) {
        Some(balright_rot(l.unwrap(), x, br))
    } else {
        proof {
            if pre {
                let n = gl.unwrap();
                assert(gl.is_some());
                assert(n.color == Color::Red);
                assert(color_of(n.right) == Color::Black);
                assert(n.right.is_none());
                assert(bh(n.left) == 0);
                assert(bh(gl) == 0);
            }
        }
        Some(mk(Color::Red, l, x, br))
    }
}

/// Joins two red subtrees: all of `a` comes before all of `b`.
fn app_red<K, V>(a: Box<RedBlackTreeNode<K, V>>, b: Box<RedBlackTreeNode<K, V>>) -> (r: Option<
    Box<RedBlackTreeNode<K, V>>,
>)
    ensures
        seq_of(r) == seq_of(Some(a)) + seq_of(Some(b)),
        a.color == Color::Red && b.color == Color::Red && invh(Some(a)) && invh(Some(b)) && bh(
            Some(a),
        ) == bh(Some(b)) && invc(Some(a)) && invc(Some(b)) ==> invh(r) && bh(r) == bh(Some(a))
            && invc2(r),
    decreases seq_of(Some(a)).len() + seq_of(Some(b)).len(), 0nat,
{
    let ghost sa = seq_of(Some(a));
    let ghost sb = seq_of(Some(b));
    let ghost ga = Some(a);
    let ghost gb = Some(b);
    let ghost pre = a.color == Color::Red && b.color == Color::Red && invh(Some(a)) && invh(Some(b))
        && bh(Some(a)) == bh(Some(b)) && invc(Some(a)) && invc(Some(b));
    let (_c1, a1, x, b1) = split(a);
    let (_c2, c1, y, d1) = split(b);
    proof {
        if pre {
            assert(invh(a1) && invh(b1) && invc(a1) && invc(b1) && bh(a1) == bh(b1));
            assert(invh(c1) && invh(d1) && invc(c1) && invc(d1) && bh(c1) == bh(d1));
            assert(bh(ga) == bh(a1) && bh(gb) == bh(c1));
            assert(color_of(b1) == Color::Black && color_of(c1) == Color::Black);
        }
    }
    let bc = app(b1, c1);
    if red_link(&bc) {
        let ghost sbc = seq_of(bc);
        let ghost gbc = bc;
        let ghost sa1 = seq_of(a1);
        let ghost sd1 = seq_of(d1);
        let (_c3, b2, z, c2) = split(bc.unwrap());
        let nl = mk(Color::Red, a1, x, b2);
        let ghost gnl = Some(nl);
        let nr = mk(Color::Red, c2, y, d1);
        let ghost gnr = Some(nr);
        let res = mk(Color::Red, Some(nl), z, Some(nr));
        assert(seq_of(Some(res)) =~= sa1 + seq![x] + sbc + seq![y] + sd1);
        assert(seq_of(Some(res)) =~= sa + sb);
        proof {
            if pre {
                assert(invc(gbc) && invh(gbc));
                assert(invc(b2) && invc(c2) && invh(b2) && invh(c2) && bh(b2) == bh(c2));
                assert(color_of(b2) == Color::Black && color_of(c2) == Color::Black);
                assert(bh(gbc) == bh(b2));
                assert(invc(gnl) && invh(gnl) && bh(gnl) == bh(a1));
                assert(invc(gnr) && invh(gnr) && bh(gnr) == bh(c2));
            }
        }
        Some(res)
    } else {
        let ghost gbc = bc;
        let nr = mk(Color::Red, bc, y, d1);
        let ghost gnr = Some(nr);
        let res = mk(Color::Red, a1, x, Some(nr));
        assert(seq_of(Some(res)) =~= sa + sb);
        proof {
            if pre {
                assert(invc(gbc) && invh(gbc) && color_of(gbc) == Color::Black);
                assert(invc(gnr) && invh(gnr) && bh(gnr) == bh(gbc));
            }
        }
        Some(res)
    }
}

/// Joins two black subtrees: all of `a` comes before all of `b`.
fn app_black<K, V>(a: Box<RedBlackTreeNode<K, V>>, b: Box<RedBlackTreeNode<K, V>>) -> (r: Option<
    Box<RedBlackTreeNode<K, V>>,
>)
    ensures
        seq_of(r) == seq_of(Some(a)) + seq_of(Some(b)),
        a.color == Color::Black && b.color == Color::Black && invh(Some(a)) && invh(Some(b)) && bh(
            Some(a),
        ) == bh(Some(b)) && invc(Some(a)) && invc(Some(b)) ==> invh(r) && bh(r) == bh(Some(a))
            && invc(r),
    decreases seq_of(Some(a)).len() + seq_of(Some(b)).len(), 0nat,
{
    let ghost sa = seq_of(Some(a));
    let ghost sb = seq_of(Some(b));
    let ghost ga = Some(a);
    let ghost gb = Some(b);
    let ghost pre = a.color == Color::Black && b.color == Color::Black && invh(Some(a)) && invh(
        Some(b),
    ) && bh(Some(a)) == bh(Some(b)) && invc(Some(a)) && invc(Some(b));
    let (_c1, a1, x, b1) = split(a);
    let (_c2, c1, y, d1) = split(b);
    proof {
        if pre {
            assert(invh(a1) && invh(b1) && invc(a1) && invc(b1) && bh(a1) == bh(b1));
            assert(invh(c1) && invh(d1) && invc(c1) && invc(d1) && bh(c1) == bh(d1));
            assert(bh(ga) == bh(a1) + 1 && bh(gb) == bh(c1) + 1);
        }
    }
    let bc = app(b1, c1);
    if red_link(&bc) {
        let ghost sbc = seq_of(bc);
        let ghost gbc = bc;
        let ghost sa1 = seq_of(a1);
        let ghost sd1 = seq_of(d1);
        let (_c3, b2, z, c2) = split(bc.unwrap());
        let nl = mk(Color::Black, a1, x, b2);
        let ghost gnl = Some(nl);
        let nr = mk(Color::Black, c2, y, d1);
        let ghost gnr = Some(nr);
        let res = mk(Color::Red, Some(nl), z, Some(nr));
        assert(seq_of(Some(res)) =~= sa1 + seq![x] + sbc + seq![y] + sd1);
        assert(seq_of(Some(res)) =~= sa + sb);
        proof {
            if pre {
                assert(invc2(gbc) && invh(gbc));
                assert(invc(b2) && invc(c2) && invh(b2) && invh(c2) && bh(b2) == bh(c2));
                assert(bh(gbc) == bh(b2));
                assert(invc(gnl) && invh(gnl) && bh(gnl) == bh(a1) + 1);
                assert(invc(gnr) && invh(gnr) && bh(gnr) == bh(c2) + 1);
            }
        }
        Some(res)
    } else {
        let ghost gbc = bc;
        let nr = mk(Color::Black, bc, y, d1);
        let ghost gnr = Some(nr);
        proof {
            if pre {
                assert(invc2(gbc) && invh(gbc) && color_of(gbc) == Color::Black);
                assert(invc(gbc));
                assert(invc(gnr) && invh(gnr) && bh(gnr) == bh(gbc) + 1);
                assert(invc2(a1));
            }
        }
        let res = balleft(a1, x, Some(nr));
        assert(seq_of(res) =~= sa + sb);
        res
    }
}

/// Joins two subtrees: all of `a` comes before all of `b`.
fn app<K, V>(a: Option<Box<RedBlackTreeNode<K, V>>>, b: Option<Box<RedBlackTreeNode<K, V>>>) -> (r: Option<
    Box<RedBlackTreeNode<K, V>>,
>)
    ensures
        seq_of(r) == seq_of(a) + seq_of(b),
        invh(a) && invh(b) && bh(a) == bh(b) && invc(a) && invc(b) ==> invh(r) && bh(r) == bh(a)
            && invc2(r) && (color_of(a) == Color::Black && color_of(b) == Color::Black ==> invc(r)),
    decreases seq_of(a).len() + seq_of(b).len(), 1nat,
{
    let ghost ga = a;
    let ghost gb = b;
    let ghost pre = invh(a) && invh(b) && bh(a) == bh(b) && invc(a) && invc(b);
    if a.is_none() {
        assert(seq_of(a) + seq_of(b) =~= seq_of(b));
        return b;
    }
    if b.is_none() {
        assert(seq_of(a) + seq_of(b) =~= seq_of(a));
        return a;
    }
    let ghost sa = seq_of(a);
    let ghost sb = seq_of(b);
    if red_link(&a) && red_link(&b) {
        app_red(a.unwrap(), b.unwrap())
    } else if black_node(&a) && black_node(&b) {
        app_black(a.unwrap(), b.unwrap())
    } else if red_link(&b) {
        let (_c, b1, x, c1) = split(b.unwrap());
        proof {
            if pre {
                assert(invh(b1) && invh(c1) && invc(b1) && invc(c1) && bh(b1) == bh(c1));
                assert(color_of(b1) == Color::Black && bh(gb) == bh(b1));
                assert(color_of(ga) == Color::Black);
            }
        }
        let l = app(a, b1);
        let res = mk(Color::Red, l, x, c1);
        assert(seq_of(Some(res)) =~= sa + sb);
        Some(res)
    } else {
        let (_c, a1, x, b1) = split(a.unwrap());
        proof {
            if pre {
                assert(invh(a1) && invh(b1) && invc(a1) && invc(b1) && bh(a1) == bh(b1));
                assert(color_of(b1) == Color::Black && bh(ga) == bh(a1));
                assert(color_of(gb) == Color::Black);
            }
        }
        let r = app(b1, b);
        let res = mk(Color::Red, a1, x, r);
        assert(seq_of(Some(res)) =~= sa + sb);
        Some(res)
    }
}

/// The key integer of an optional key.
pub open spec fn key_int_opt<K: IntKey>(key: Option<&K>) -> Option<int> {
    match key {
        Some(k) => Some(k.key_int()),
        None => None,
    }
}

/// The index of the entry that a deletion takes out of `s`: the first entry of
/// the key, if a key is given, else the first or the last entry.
pub open spec fn target_index<K: IntKey, V>(s: Seq<(K, V)>, key: Option<int>, first: bool) -> int {
    match key {
        Some(k) => first_index(s, k),
        None => if first {
            0
        } else {
            s.len() - 1
        },
    }
}

/// The entry that deletion targets, when it lies in the left subtree.
proof fn lemma_del_left<K: IntKey, V>(s: Seq<(K, V)>, sa: Seq<(K, V)>, y: (K, V), sb: Seq<(K, V)>, ko: Option<int>, first: bool)
    requires
        keys_sorted(s),
        s == sa + seq![y] + sb,
        ko matches Some(kk) ==> has_key(s, kk) && (kk < y.0.key_int() || (kk == y.0.key_int() && has_key(sa, kk))),
        ko is None ==> first && sa.len() > 0,
    ensures
        target_index(s, ko, first) == target_index(sa, ko, first),
        0 <= target_index(sa, ko, first) < sa.len(),
        ko matches Some(kk) ==> has_key(sa, kk),
{
    if let Some(kk) = ko {
        if kk < y.0.key_int() {
            lemma_no_key_right(s, sa, y, sb, kk);
        }
        lemma_first_match_left(s, sa, y, sb, kk);
        lemma_has_key_first_match(sa, kk);
    }
}

/// The entry that deletion targets, when it lies in the right subtree.
proof fn lemma_del_right<K: IntKey, V>(s: Seq<(K, V)>, sa: Seq<(K, V)>, y: (K, V), sb: Seq<(K, V)>, ko: Option<int>, first: bool)
    requires
        keys_sorted(s),
        s == sa + seq![y] + sb,
        ko matches Some(kk) ==> has_key(s, kk) && kk > y.0.key_int(),
        ko is None ==> !first && sb.len() > 0,
    ensures
        target_index(s, ko, first) == sa.len() + 1 + target_index(sb, ko, first),
        0 <= target_index(sb, ko, first) < sb.len(),
        ko matches Some(kk) ==> has_key(sb, kk),
{
    if let Some(kk) = ko {
        lemma_first_match_right(s, sa, y, sb, kk);
        lemma_has_key_first_match(sb, kk);
    }
}

/// The entry that deletion targets, when it is the node itself.
proof fn lemma_del_here<K: IntKey, V>(s: Seq<(K, V)>, sa: Seq<(K, V)>, y: (K, V), sb: Seq<(K, V)>, ko: Option<int>, first: bool)
    requires
        s == sa + seq![y] + sb,
        ko matches Some(kk) ==> kk == y.0.key_int() && !has_key(sa, kk),
        ko is None ==> (first && sa.len() == 0) || (!first && sb.len() == 0),
    ensures
        target_index(s, ko, first) == sa.len(),
{
    if let Some(kk) = ko {
        lemma_first_match_here(s, sa, y, sb, kk);
    }
}

/// Removing from `a + [y] + b` at an index of `a`.
proof fn lemma_remove_in_left<A>(sa: Seq<A>, y: A, sb: Seq<A>, j: int)
    requires
        0 <= j < sa.len(),
    ensures
        sa.remove(j) + seq![y] + sb == (sa + seq![y] + sb).remove(j),
{
    assert(sa.remove(j) + seq![y] + sb =~= (sa + seq![y] + sb).remove(j));
}

/// Removing from `a + [y] + b` at an index of `b`.
proof fn lemma_remove_in_right<A>(sa: Seq<A>, y: A, sb: Seq<A>, j: int)
    requires
        0 <= j < sb.len(),
    ensures
        sa + seq![y] + sb.remove(j) == (sa + seq![y] + sb).remove(sa.len() + 1 + j),
        (sa + seq![y] + sb)[sa.len() + 1 + j] == sb[j],
{
    assert(sa + seq![y] + sb.remove(j) =~= (sa + seq![y] + sb).remove(sa.len() + 1 + j));
}

/// Removing `y` from `a + [y] + b`.
proof fn lemma_remove_here<A>(sa: Seq<A>, y: A, sb: Seq<A>)
    ensures
        sa + sb == (sa + seq![y] + sb).remove(sa.len() as int),
        (sa + seq![y] + sb)[sa.len() as int] == y,
{
    assert(sa + sb =~= (sa + seq![y] + sb).remove(sa.len() as int));
}

/// Updating `a + [y] + b` at an index of `a`.
proof fn lemma_update_in_left<A>(sa: Seq<A>, y: A, sb: Seq<A>, j: int)
    requires
        0 <= j < sa.len(),
    ensures
        forall|x: A| #[trigger] (sa + seq![y] + sb).update(j, x) == sa.update(j, x) + seq![y] + sb,
        (sa + seq![y] + sb)[j] == sa[j],
{
    assert forall|x: A| #[trigger] (sa + seq![y] + sb).update(j, x) == sa.update(j, x) + seq![y] + sb by {
        assert((sa + seq![y] + sb).update(j, x) =~= sa.update(j, x) + seq![y] + sb);
    }
}

/// Updating `a + [y] + b` at an index of `b`.
proof fn lemma_update_in_right<A>(sa: Seq<A>, y: A, sb: Seq<A>, j: int)
    requires
        0 <= j < sb.len(),
    ensures
        forall|x: A| #[trigger] (sa + seq![y] + sb).update(sa.len() + 1 + j, x) == sa + seq![y] + sb.update(j, x),
        (sa + seq![y] + sb)[sa.len() + 1 + j] == sb[j],
{
    assert forall|x: A| #[trigger] (sa + seq![y] + sb).update(sa.len() + 1 + j, x) == sa + seq![y] + sb.update(j, x) by {
        assert((sa + seq![y] + sb).update(sa.len() + 1 + j, x) =~= sa + seq![y] + sb.update(j, x));
    }
}

/// Updating `a + [y] + b` at the place of `y`.
proof fn lemma_update_here<A>(sa: Seq<A>, y: A, sb: Seq<A>)
    ensures
        forall|x: A| #[trigger] (sa + seq![y] + sb).update(sa.len() as int, x) == sa + seq![x] + sb,
        (sa + seq![y] + sb)[sa.len() as int] == y,
{
    assert forall|x: A| #[trigger] (sa + seq![y] + sb).update(sa.len() as int, x) == sa + seq![x] + sb by {
        assert((sa + seq![y] + sb).update(sa.len() as int, x) =~= sa + seq![x] + sb);
    }
}

/// Removes the entry at `target_index` from a non-empty subtree and returns it.
fn del<K: IntKey, V>(t: Option<Box<RedBlackTreeNode<K, V>>>, key: Option<&K>, first: bool) -> (r: (
    Option<Box<RedBlackTreeNode<K, V>>>,
    (K, V),
))
    requires
        t.is_some(),
        keys_sorted(seq_of(t)),
        key.is_some() ==> has_key(seq_of(t), key.unwrap().key_int()),
    ensures
        ({
            let s = seq_of(t);
            let i = target_index(s, key_int_opt(key), first);
            &&& 0 <= i < s.len()
            &&& r.1 == s[i]
            &&& seq_of(r.0) == s.remove(i)
        }),
        invh(t) && invc(t) ==> invh(r.0) && (color_of(t) == Color::Red ==> bh(r.0) == bh(t) && invc(
            r.0,
        )) && (color_of(t) == Color::Black ==> bh(r.0) + 1 == bh(t) && invc2(r.0)),
    decreases t,
{
    let ghost gt = t;
    let ghost pre = invh(t) && invc(t);
    let ghost s = seq_of(t);
    let ghost ko = key_int_opt(key);
    let ghost i = target_index(s, ko, first);
    let b = t.unwrap();
    let ghost sa = seq_of(b.left);
    let ghost sb = seq_of(b.right);
    let ghost y0 = b.data;
    assert(s == sa + seq![y0] + sb);
    proof {
        lemma_sorted_sub(s, sa, y0, sb);
    }
    let dir: u8 = match key {
        Some(k) => {
            if k.key_lt(&b.data.0) {
                0
            } else if b.data.0.key_lt(k) {
                2
            } else if find_in(&b.left, k).is_some() {
                0
            } else {
                1
            }
        },
        None => {
            if first {
                if b.left.is_some() {
                    0
                } else {
                    1
                }
            } else {
                if b.right.is_some() {
                    2
                } else {
                    1
                }
            }
        },
    };
    proof {
        if dir == 0 {
            lemma_del_left(s, sa, y0, sb, ko, first);
        } else if dir == 2 {
            lemma_del_right(s, sa, y0, sb, ko, first);
        } else {
            lemma_del_here(s, sa, y0, sb, ko, first);
        }
    }
    let (_c, a, y, bb) = split(b);
    let ghost ga = a;
    let ghost gbb = bb;
    proof {
        if pre {
            assert(invh(a) && invh(bb) && invc(a) && invc(bb) && bh(a) == bh(bb));
        }
    }
    if dir == 0 {
        let a_black = black_node(&a);
        let (na, e) = del(a, key, first);
        let ghost gna = na;
        let res = if a_black {
            balleft(na, y, bb)
        } else {
            let n = mk(Color::Red, na, y, bb);
            proof {
                if pre {
                    assert(color_of(ga) == Color::Red);
                    assert(color_of(gt) == Color::Black);
                    assert(invc(gna) && invh(gna) && bh(gna) == bh(ga));
                }
            }
            Some(n)
        };
        proof {
            lemma_remove_in_left(sa, y0, sb, i);
        }
        (res, e)
    } else if dir == 2 {
        let b_black = black_node(&bb);
        let ghost j = target_index(sb, ko, first);
        let (nb, e) = del(bb, key, first);
        let ghost gnb = nb;
        let res = if b_black {
            balright(a, y, nb)
        } else {
            let n = mk(Color::Red, a, y, nb);
            proof {
                if pre {
                    assert(color_of(gbb) == Color::Red);
                    assert(color_of(gt) == Color::Black);
                    assert(invc(gnb) && invh(gnb) && bh(gnb) == bh(gbb));
                }
            }
            Some(n)
        };
        proof {
            lemma_remove_in_right(sa, y0, sb, j);
        }
        (res, e)
    } else {
        let res = app(a, bb);
        proof {
            lemma_remove_here(sa, y0, sb);
        }
        (res, y)
    }
}

// ----------------------------------------------------------------------
// First and last entries
// ----------------------------------------------------------------------

/// The first entry below `t`.
fn first_in<'a, K, V>(t: &'a Option<Box<RedBlackTreeNode<K, V>>>) -> (r: Option<(&'a K, &'a V)>)
    ensures
        r.is_some() == (seq_of(*t).len() > 0),
        r.is_some() ==> *r.unwrap().0 == seq_of(*t)[0].0 && *r.unwrap().1 == seq_of(*t)[0].1,
    decreases *t,
{
    match t {
        None => None,
        Some(b) => {
            assert(seq_of(*t) == seq_of(b.left) + seq![b.data] + seq_of(b.right));
            if b.left.is_some() {
                let r = first_in(&b.left);
                assert(seq_of(*t)[0] == seq_of(b.left)[0]);
                r
            } else {
                Some((&b.data.0, &b.data.1))
            }
        },
    }
}

/// The last entry below `t`.
fn last_in<'a, K, V>(t: &'a Option<Box<RedBlackTreeNode<K, V>>>) -> (r: Option<(&'a K, &'a V)>)
    ensures
        r.is_some() == (seq_of(*t).len() > 0),
        r.is_some() ==> {
            let s = seq_of(*t);
            *r.unwrap().0 == s[s.len() - 1].0 && *r.unwrap().1 == s[s.len() - 1].1
        },
    decreases *t,
{
    match t {
        None => None,
        Some(b) => {
            let ghost sa = seq_of(b.left);
            let ghost sb = seq_of(b.right);
            assert(seq_of(*t) == sa + seq![b.data] + sb);
            if b.right.is_some() {
                let r = last_in(&b.right);
                assert(seq_of(*t)[seq_of(*t).len() - 1] == sb[sb.len() - 1]);
                r
            } else {
                Some((&b.data.0, &b.data.1))
            }
        },
    }
}

/// The first entry below `t`, with its value to change in place.
fn first_mut_in<'a, K, V>(t: &'a mut Option<Box<RedBlackTreeNode<K, V>>>) -> (r: Option<(&'a K, &'a mut V)>)
    ensures
        r.is_some() == (seq_of(*old(t)).len() > 0),
        r.is_some() ==> {
            let s = seq_of(*old(t));
            &&& *r.unwrap().0 == s[0].0
            &&& *r.unwrap().1 == s[0].1
            &&& seq_of(*final(t)) == s.update(0, (s[0].0, *final(r.unwrap().1)))
        },
        r.is_none() ==> *final(t) == *old(t),
        same_shape(*final(t), *old(t)),
    decreases *old(t),
{
    let ghost ot = *t;
    proof {
        if let Some(n) = ot {
            lemma_same_shape_refl(n.left);
            lemma_same_shape_refl(n.right);
        }
    }
    proof {
        if let Some(n) = ot {
            let sa = seq_of(n.left);
            let sb = seq_of(n.right);
            assert(seq_of(ot) == sa + seq![n.data] + sb);
            if sa.len() > 0 {
                lemma_update_in_left(sa, n.data, sb, 0);
            } else {
                lemma_update_here(sa, n.data, sb);
            }
        }
    }
    match t {
        None => None,
        Some(b) => {
            if b.left.is_some() {
                first_mut_in(&mut b.left)
            } else {
                let d = &mut b.data;
                Some((&d.0, &mut d.1))
            }
        },
    }
}

/// The last entry below `t`, with its value to change in place.
fn last_mut_in<'a, K, V>(t: &'a mut Option<Box<RedBlackTreeNode<K, V>>>) -> (r: Option<(&'a K, &'a mut V)>)
    ensures
        r.is_some() == (seq_of(*old(t)).len() > 0),
        r.is_some() ==> {
            let s = seq_of(*old(t));
            let i = s.len() - 1;
            &&& *r.unwrap().0 == s[i].0
            &&& *r.unwrap().1 == s[i].1
            &&& seq_of(*final(t)) == s.update(i, (s[i].0, *final(r.unwrap().1)))
        },
        r.is_none() ==> *final(t) == *old(t),
        same_shape(*final(t), *old(t)),
    decreases *old(t),
{
    let ghost ot = *t;
    proof {
        if let Some(n) = ot {
            lemma_same_shape_refl(n.left);
            lemma_same_shape_refl(n.right);
        }
    }
    let ghost sa = match ot { Some(n) => seq_of(n.left), None => Seq::empty() };
    let ghost sb = match ot { Some(n) => seq_of(n.right), None => Seq::empty() };
    let ghost y = match ot { Some(n) => Some(n.data), None => None };
    proof {
        if let Some(n) = ot {
            assert(seq_of(ot) == sa + seq![n.data] + sb);
            if sb.len() > 0 {
                lemma_update_in_right(sa, n.data, sb, sb.len() - 1);
            } else {
                lemma_update_here(sa, n.data, sb);
            }
        }
    }
    match t {
        None => None,
        Some(b) => {
            if b.right.is_some() {
                last_mut_in(&mut b.right)
            } else {
                let d = &mut b.data;
                Some((&d.0, &mut d.1))
            }
        },
    }
}

// ----------------------------------------------------------------------
// The tree
// ----------------------------------------------------------------------

impl<K, V> View for RedBlackTree<K, V> {
    type V = Seq<(K, V)>;

    closed spec fn view(&self) -> Seq<(K, V)> {
        seq_of(self.root)
    }
}

impl<K: IntKey, V> RedBlackTree<K, V> {
    /// The tree is a red-black tree: its root is black, no red node has a red
    /// child, and every path from the root down meets the same number of
    /// black nodes.
    pub closed spec fn is_red_black(&self) -> bool {
        rbt(self.root)
    }

    /// The entries are sorted by key and the length is counted right.
    pub closed spec fn wf(&self) -> bool {
        &&& keys_sorted(seq_of(self.root))
        &&& self.len == seq_of(self.root).len()
    }

    /// An empty tree.
    pub fn new() -> (r: Self)
        ensures
            r.wf(),
            r.is_red_black(),
            r@ == Seq::<(K, V)>::empty(),
    {
        proof {
            lemma_empty_sorted::<K, V>();
        }
        RedBlackTree { root: None, len: 0 }
    }

    /// The number of entries.
    pub fn len(&self) -> (r: usize)
        requires
            self.wf(),
        ensures
            r == self@.len(),
    {
        self.len
    }

    /// Whether the tree holds no entry.
    pub fn is_empty(&self) -> (r: bool)
        ensures
            r == (self@.len() == 0),
    {
        self.root.is_none()
    }

    /// Adds the entry `(k, v)` after every entry whose key is at most `k`.
    pub fn insert(&mut self, k: K, v: V)
        requires
            old(self).wf(),
            old(self)@.len() < usize::MAX,
        ensures
            old(self).is_red_black() ==> final(self).is_red_black(),
            final(self).wf(),
            final(self)@ == old(self)@.insert(insert_spot(old(self)@, k.key_int()), (k, v)),
    {
        let ghost s = seq_of(self.root);
        let ghost kk = k.key_int();
        let ghost e = (k, v);
        self.len = self.len + 1;
        let root = self.root.take();
        let n = ins(root, k, v);
        self.root = make_black(Some(n));
        proof {
            let p = choose|p: int| is_insert_spot(s, kk, p) && seq_of(Some(n)) == s.insert(p, e);
            lemma_insert_spot_unique(s, kk, p);
            lemma_insert_sorted(s, p, e);
        }
    }

    /// Puts `v` in place of the value of the first entry of key `k` and returns
    /// the value it had; without such an entry, inserts `(k, v)` and returns `None`.
    pub fn replace_or_insert(&mut self, k: K, v: V) -> (r: Option<V>)
        requires
            old(self).wf(),
            old(self)@.len() < usize::MAX,
        ensures
            old(self).is_red_black() ==> final(self).is_red_black(),
            final(self).wf(),
            ({
                let s = old(self)@;
                let kk = k.key_int();
                if has_key(s, kk) {
                    let i = first_index(s, kk);
                    r == Some(s[i].1) && final(self)@ == s.update(i, (s[i].0, v))
                } else {
                    r.is_none() && final(self)@ == s.insert(insert_spot(s, kk), (k, v))
                }
            }),
    {
        let ghost s = seq_of(self.root);
        let ghost kk = k.key_int();
        proof {
            if has_key(s, kk) {
                lemma_has_key_first_match(s, kk);
                lemma_update_value_sorted(s, first_index(s, kk));
            }
        }
        let mut v = v;
        proof {
            lemma_same_shape_all::<K, V>();
        }
        match find_mut_in(&mut self.root, &k) {
            Some(slot) => {
                std::mem::swap(slot, &mut v);
                Some(v)
            },
            None => {
                self.insert(k, v);
                None
            },
        }
    }

    /// The value of the first entry of key `k`, if any.
    pub fn get(&self, k: &K) -> (r: Option<&V>)
        requires
            self.wf(),
        ensures
            r.is_some() == has_key(self@, k.key_int()),
            r.is_some() ==> *r.unwrap() == self@[first_index(self@, k.key_int())].1,
    {
        find_in(&self.root, k)
    }

    /// The value of the first entry of key `k`, to change in place.
    pub fn get_mut(&mut self, k: &K) -> (r: Option<&mut V>)
        requires
            old(self).wf(),
        ensures
            old(self).is_red_black() ==> final(self).is_red_black(),
            r.is_some() == has_key(old(self)@, k.key_int()),
            r.is_some() ==> {
                let s = old(self)@;
                let i = first_index(s, k.key_int());
                &&& *r.unwrap() == s[i].1
                &&& final(self)@ == s.update(i, (s[i].0, *final(r.unwrap())))
            },
            r.is_none() ==> final(self)@ == old(self)@,
            final(self).wf(),
    {
        let ghost s = seq_of(self.root);
        let ghost kk = k.key_int();
        proof {
            if has_key(s, kk) {
                lemma_has_key_first_match(s, kk);
                lemma_update_value_sorted(s, first_index(s, kk));
            }
        }
        proof {
            lemma_same_shape_all::<K, V>();
        }
        find_mut_in(&mut self.root, k)
    }

    /// Whether some entry has key `k`.
    pub fn contains_key(&self, k: &K) -> (r: bool)
        requires
            self.wf(),
        ensures
            r == has_key(self@, k.key_int()),
    {
        find_in(&self.root, k).is_some()
    }

    /// The first entry, if any.
    pub fn get_first(&self) -> (r: Option<(&K, &V)>)
        ensures
            r.is_some() == (self@.len() > 0),
            r.is_some() ==> *r.unwrap().0 == self@[0].0 && *r.unwrap().1 == self@[0].1,
    {
        first_in(&self.root)
    }

    /// The last entry, if any.
    pub fn get_last(&self) -> (r: Option<(&K, &V)>)
        ensures
            r.is_some() == (self@.len() > 0),
            r.is_some() ==> *r.unwrap().0 == self@.last().0 && *r.unwrap().1 == self@.last().1,
    {
        last_in(&self.root)
    }

    /// The first entry, with its value to change in place.
    pub fn get_first_mut(&mut self) -> (r: Option<(&K, &mut V)>)
        requires
            old(self).wf(),
        ensures
            old(self).is_red_black() ==> final(self).is_red_black(),
            r.is_some() == (old(self)@.len() > 0),
            r.is_some() ==> {
                let s = old(self)@;
                &&& *r.unwrap().0 == s[0].0
                &&& *r.unwrap().1 == s[0].1
                &&& final(self)@ == s.update(0, (s[0].0, *final(r.unwrap().1)))
            },
            r.is_none() ==> final(self)@ == old(self)@,
            final(self).wf(),
    {
        let ghost s = seq_of(self.root);
        proof {
            if s.len() > 0 {
                lemma_update_value_sorted(s, 0);
            }
        }
        proof {
            lemma_same_shape_all::<K, V>();
        }
        first_mut_in(&mut self.root)
    }

    /// The last entry, with its value to change in place.
    pub fn get_last_mut(&mut self) -> (r: Option<(&K, &mut V)>)
        requires
            old(self).wf(),
        ensures
            old(self).is_red_black() ==> final(self).is_red_black(),
            r.is_some() == (old(self)@.len() > 0),
            r.is_some() ==> {
                let s = old(self)@;
                let i = s.len() - 1;
                &&& *r.unwrap().0 == s[i].0
                &&& *r.unwrap().1 == s[i].1
                &&& final(self)@ == s.update(i, (s[i].0, *final(r.unwrap().1)))
            },
            r.is_none() ==> final(self)@ == old(self)@,
            final(self).wf(),
    {
        let ghost s = seq_of(self.root);
        proof {
            if s.len() > 0 {
                lemma_update_value_sorted(s, s.len() - 1);
            }
        }
        proof {
            lemma_same_shape_all::<K, V>();
        }
        last_mut_in(&mut self.root)
    }

    /// Removes and returns the first entry, if any.
    pub fn pop_first(&mut self) -> (r: Option<(K, V)>)
        requires
            old(self).wf(),
        ensures
            old(self).is_red_black() ==> final(self).is_red_black(),
            final(self).wf(),
            old(self)@.len() == 0 ==> r.is_none() && final(self)@ == old(self)@,
            old(self)@.len() > 0 ==> r == Some(old(self)@[0]) && final(self)@ == old(self)@.remove(0),
    {
        if self.root.is_none() {
            return None;
        }
        let ghost s = seq_of(self.root);
        let root = self.root.take();
        let (nr, e) = del(root, None, true);
        self.root = make_black(nr);
        self.len = self.len - 1;
        proof {
            lemma_remove_sorted(s, 0);
        }
        Some(e)
    }

    /// Removes and returns the last entry, if any.
    pub fn pop_last(&mut self) -> (r: Option<(K, V)>)
        requires
            old(self).wf(),
        ensures
            old(self).is_red_black() ==> final(self).is_red_black(),
            final(self).wf(),
            old(self)@.len() == 0 ==> r.is_none() && final(self)@ == old(self)@,
            old(self)@.len() > 0 ==> r == Some(old(self)@.last()) && final(self)@ == old(self)@.remove(
                old(self)@.len() - 1,
            ),
    {
        if self.root.is_none() {
            return None;
        }
        let ghost s = seq_of(self.root);
        let root = self.root.take();
        let (nr, e) = del(root, None, false);
        self.root = make_black(nr);
        self.len = self.len - 1;
        proof {
            lemma_remove_sorted(s, s.len() - 1);
        }
        Some(e)
    }

    /// Removes the first entry of key `k` and returns its value; `None` if
    /// there is none.
    pub fn remove(&mut self, k: &K) -> (r: Option<V>)
        requires
            old(self).wf(),
        ensures
            old(self).is_red_black() ==> final(self).is_red_black(),
            final(self).wf(),
            ({
                let s = old(self)@;
                let kk = k.key_int();
                if has_key(s, kk) {
                    let i = first_index(s, kk);
                    r == Some(s[i].1) && final(self)@ == s.remove(i)
                } else {
                    r.is_none() && final(self)@ == s
                }
            }),
    {
        if find_in(&self.root, k).is_none() {
            return None;
        }
        let ghost s = seq_of(self.root);
        let root = self.root.take();
        let (nr, e) = del(root, Some(k), true);
        self.root = make_black(nr);
        self.len = self.len - 1;
        proof {
            lemma_remove_sorted(s, first_index(s, k.key_int()));
        }
        Some(e.1)
    }

    /// Removes every entry.
    pub fn clear(&mut self)
        ensures
            final(self).wf(),
            final(self).is_red_black(),
            final(self)@ == Seq::<(K, V)>::empty(),
    {
        proof {
            lemma_empty_sorted::<K, V>();
        }
        self.root = None;
        self.len = 0;
    }
}

// ----------------------------------------------------------------------
// Laws
// ----------------------------------------------------------------------

/// A key inserted where it was absent is then found, with the value that
/// went in: `get` after `insert`.
pub proof fn lemma_get_after_insert<K: IntKey, V>(before: RedBlackTree<K, V>, after: RedBlackTree<K, V>, k: K, v: V)
    requires
        before.wf(),
        !has_key(before@, k.key_int()),
        after@ == before@.insert(insert_spot(before@, k.key_int()), (k, v)),
    ensures
        has_key(after@, k.key_int()),
        first_index(after@, k.key_int()) == insert_spot(before@, k.key_int()),
        after@[first_index(after@, k.key_int())] == (k, v),
{
    let s = before@;
    let kk = k.key_int();
    lemma_insert_spot_exists(s, kk);
    let p = insert_spot(s, kk);
    let t = after@;
    assert(t[p] == (k, v));
    assert(is_first_match(t, kk, p)) by {
        assert forall|j: int| 0 <= j < p implies t[j].0.key_int() != kk by {
            assert(t[j] == s[j]);
            if s[j].0.key_int() == kk {
                assert(has_key(s, kk));
            }
        }
    }
    lemma_first_match_unique(t, kk, p);
}

/// Removing a key just inserted where it was absent gives its value back and
/// leaves the entries as they were: `remove` undoes `insert`.
pub proof fn lemma_remove_undoes_insert<K: IntKey, V>(
    before: RedBlackTree<K, V>,
    mid: RedBlackTree<K, V>,
    after: RedBlackTree<K, V>,
    k: K,
    v: V,
    r: Option<V>,
)
    requires
        before.wf(),
        !has_key(before@, k.key_int()),
        mid@ == before@.insert(insert_spot(before@, k.key_int()), (k, v)),
        ({
            let s = mid@;
            let kk = k.key_int();
            if has_key(s, kk) {
                let i = first_index(s, kk);
                r == Some(s[i].1) && after@ == s.remove(i)
            } else {
                r.is_none() && after@ == s
            }
        }),
    ensures
        r == Some(v),
        after@ == before@,
{
    lemma_get_after_insert(before, mid, k, v);
    let p = insert_spot(before@, k.key_int());
    lemma_insert_spot_exists(before@, k.key_int());
    assert(mid@.remove(p) =~= before@);
}

/// `replace_or_insert` leaves `k` mapped to the new value, whether or not it
/// was there.
pub proof fn lemma_get_after_replace<K: IntKey, V>(before: RedBlackTree<K, V>, after: RedBlackTree<K, V>, k: K, v: V, r: Option<V>)
    requires
        before.wf(),
        ({
            let s = before@;
            let kk = k.key_int();
            if has_key(s, kk) {
                let i = first_index(s, kk);
                r == Some(s[i].1) && after@ == s.update(i, (s[i].0, v))
            } else {
                r.is_none() && after@ == s.insert(insert_spot(s, kk), (k, v))
            }
        }),
    ensures
        has_key(after@, k.key_int()),
        after@[first_index(after@, k.key_int())].1 == v,
{
    let s = before@;
    let kk = k.key_int();
    if has_key(s, kk) {
        lemma_has_key_first_match(s, kk);
        let i = first_index(s, kk);
        let t = after@;
        assert(is_first_match(t, kk, i)) by {
            assert forall|j: int| 0 <= j < i implies t[j].0.key_int() != kk by {
                assert(t[j] == s[j]);
            }
        }
        lemma_first_match_unique(t, kk, i);
    } else {
        lemma_get_after_insert(before, after, k, v);
    }
}

/// The first entry has the least key, and the last entry the greatest: what
/// `pop_first` and `pop_last` hand out.
pub proof fn lemma_first_least_last_greatest<K: IntKey, V>(t: RedBlackTree<K, V>, i: int)
    requires
        t.wf(),
        0 <= i < t@.len(),
    ensures
        t@[0].0.key_int() <= t@[i].0.key_int(),
        t@[i].0.key_int() <= t@.last().0.key_int(),
{
    reveal(keys_sorted);
}

/// The entries of a tree are sorted by key, so every key has its one place
/// among them: the place where `insert` puts it.
pub proof fn lemma_entries_sorted<K: IntKey, V>(t: RedBlackTree<K, V>)
    requires
        t.wf(),
    ensures
        forall|i: int, j: int| 0 <= i <= j < t@.len() ==> #[trigger] t@[i].0.key_int() <= #[trigger] t@[j].0.key_int(),
        forall|k: int| is_insert_spot(t@, k, #[trigger] insert_spot(t@, k)),
{
    reveal(keys_sorted);
    assert forall|k: int| is_insert_spot(t@, k, #[trigger] insert_spot(t@, k)) by {
        lemma_insert_spot_exists(t@, k);
    }
}

/// `insert` adds one entry and keeps every other: the entries afterwards are
/// those before with `(k, v)` added, an entry with an equal key included, and
/// the key is then present.
pub proof fn lemma_insert_adds_entry<K: IntKey, V>(before: RedBlackTree<K, V>, after: RedBlackTree<K, V>, k: K, v: V)
    requires
        before.wf(),
        after@ == before@.insert(insert_spot(before@, k.key_int()), (k, v)),
    ensures
        after@.to_multiset() == before@.to_multiset().insert((k, v)),
        after@.len() == before@.len() + 1,
        has_key(after@, k.key_int()),
{
    let s = before@;
    let kk = k.key_int();
    lemma_insert_spot_exists(s, kk);
    let p = insert_spot(s, kk);
    vstd::seq_lib::to_multiset_insert(s, p, (k, v));
    assert(after@[p] == (k, v));
}

/// `remove(k)` of a present key takes out one entry of key `k`, with the value
/// handed back, and keeps every other: the entries afterwards are those before
/// less that one.
pub proof fn lemma_remove_takes_entry<K: IntKey, V>(before: RedBlackTree<K, V>, after: RedBlackTree<K, V>, k: K, r: Option<V>)
    requires
        before.wf(),
        has_key(before@, k.key_int()),
        r == Some(before@[first_index(before@, k.key_int())].1),
        after@ == before@.remove(first_index(before@, k.key_int())),
    ensures
        ({
            let e = before@[first_index(before@, k.key_int())];
            &&& e.0.key_int() == k.key_int()
            &&& r == Some(e.1)
            &&& before@.to_multiset().count(e) > 0
            &&& after@.to_multiset() == before@.to_multiset().remove(e)
        }),
        after@.len() == before@.len() - 1,
{
    let s = before@;
    let kk = k.key_int();
    lemma_has_key_first_match(s, kk);
    let i = first_index(s, kk);
    vstd::seq_lib::to_multiset_remove(s, i);
    vstd::seq_lib::to_multiset_contains(s, s[i]);
    assert(s.contains(s[i]));
}

} // verus!
