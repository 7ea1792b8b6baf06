use vstd::prelude::*;

verus! {

/// A node of a binary tree: an element and two subtrees.
pub struct TreeNode<T> {
    data: T,
    left: Option<Box<TreeNode<T>>>,
    right: Option<Box<TreeNode<T>>>,
}

/// The elements of `t` in pre-order: each node before its left subtree, then
/// its right subtree.
pub closed spec fn preorder<T>(t: Option<Box<TreeNode<T>>>) -> Seq<T>
    decreases t,
{
    match t {
        None => Seq::empty(),
        Some(n) => seq![n.data] + preorder(n.left) + preorder(n.right),
    }
}

/// The elements of `t` in in-order: each node between its left subtree and
/// its right subtree.
pub closed spec fn inorder<T>(t: Option<Box<TreeNode<T>>>) -> Seq<T>
    decreases t,
{
    match t {
        None => Seq::empty(),
        Some(n) => inorder(n.left) + seq![n.data] + inorder(n.right),
    }
}

/// The elements of `t` in post-order: each node after its left subtree and
/// its right subtree.
pub closed spec fn postorder<T>(t: Option<Box<TreeNode<T>>>) -> Seq<T>
    decreases t,
{
    match t {
        None => Seq::empty(),
        Some(n) => postorder(n.left) + postorder(n.right) + seq![n.data],
    }
}

/// The values behind a sequence of references.
pub open spec fn derefs<T>(s: Seq<&T>) -> Seq<T> {
    s.map_values(|x: &T| *x)
}

/// Pushing a reference pushes the value behind it.
proof fn lemma_derefs_push<T>(s: Seq<&T>, x: &T)
    ensures
        derefs(s.push(x)) == derefs(s).push(*x),
{
    assert(derefs(s.push(x)) =~= derefs(s).push(*x));
}

/// Appends the elements of `t` to `out` in pre-order.
fn preorder_into<'a, T>(t: &'a Option<Box<TreeNode<T>>>, out: &mut Vec<&'a T>)
    ensures
        derefs(final(out)@) == derefs(old(out)@) + preorder(*t),
    decreases *t,
{
    match t {
        None => {
            assert(derefs(out@) =~= derefs(out@) + Seq::<T>::empty());
        },
        Some(n) => {
            let ghost o0 = derefs(out@);
            out.push(&n.data);
            proof {
                lemma_derefs_push(old(out)@, &n.data);
            }
            preorder_into(&n.left, out);
            preorder_into(&n.right, out);
            assert(derefs(out@) =~= o0 + (seq![n.data] + preorder(n.left) + preorder(n.right)));
        },
    }
}

/// Appends the elements of `t` to `out` in in-order.
fn inorder_into<'a, T>(t: &'a Option<Box<TreeNode<T>>>, out: &mut Vec<&'a T>)
    ensures
        derefs(final(out)@) == derefs(old(out)@) + inorder(*t),
    decreases *t,
{
    match t {
        None => {
            assert(derefs(out@) =~= derefs(out@) + Seq::<T>::empty());
        },
        Some(n) => {
            let ghost o0 = derefs(out@);
            inorder_into(&n.left, out);
            let ghost o1 = out@;
            out.push(&n.data);
            proof {
                lemma_derefs_push(o1, &n.data);
            }
            inorder_into(&n.right, out);
            assert(derefs(out@) =~= o0 + (inorder(n.left) + seq![n.data] + inorder(n.right)));
        },
    }
}

/// Appends the elements of `t` to `out` in post-order.
fn postorder_into<'a, T>(t: &'a Option<Box<TreeNode<T>>>, out: &mut Vec<&'a T>)
    ensures
        derefs(final(out)@) == derefs(old(out)@) + postorder(*t),
    decreases *t,
{
    match t {
        None => {
            assert(derefs(out@) =~= derefs(out@) + Seq::<T>::empty());
        },
        Some(n) => {
            let ghost o0 = derefs(out@);
            postorder_into(&n.left, out);
            postorder_into(&n.right, out);
            let ghost o1 = out@;
            out.push(&n.data);
            proof {
                lemma_derefs_push(o1, &n.data);
            }
            assert(derefs(out@) =~= o0 + (postorder(n.left) + postorder(n.right) + seq![n.data]));
        },
    }
}

/// A binary tree.
pub struct Tree<T> {
    root: Option<Box<TreeNode<T>>>,
}

impl<T> TreeNode<T> {
    /// The element of the node.
    pub closed spec fn value(&self) -> T {
        self.data
    }

    /// The left subtree.
    pub closed spec fn left_tree(&self) -> Option<Box<TreeNode<T>>> {
        self.left
    }

    /// The right subtree.
    pub closed spec fn right_tree(&self) -> Option<Box<TreeNode<T>>> {
        self.right
    }
}

impl<T> Tree<T> {
    /// The root of the tree.
    pub closed spec fn root_node(&self) -> Option<Box<TreeNode<T>>> {
        self.root
    }

    /// A tree of the one element `t`.
    pub fn new(t: T) -> (r: Self)
        ensures
            r.root_node() is Some,
            r.root_node().unwrap().value() == t,
            r.root_node().unwrap().left_tree() is None,
            r.root_node().unwrap().right_tree() is None,
    {
        Tree { root: Some(Box::new(TreeNode { data: t, left: None, right: None })) }
    }

    /// The tree whose root is `root`.
    pub fn new_as_node(root: Box<TreeNode<T>>) -> (r: Self)
        ensures
            r.root_node() == Some(root),
    {
        Tree { root: Some(root) }
    }

    /// A node of element `t` over the subtrees `left` and `right`.
    pub fn create_node(t: T, left: Option<Box<TreeNode<T>>>, right: Option<Box<TreeNode<T>>>) -> (r: Box<TreeNode<T>>)
        ensures
            r.value() == t,
            r.left_tree() == left,
            r.right_tree() == right,
    {
        Box::new(TreeNode { data: t, left, right })
    }

    /// The elements in pre-order: each node, then its left subtree, then its
    /// right subtree.
    pub fn first_root(&self) -> (r: Vec<&T>)
        ensures
            derefs(r@) == preorder(self.root_node()),
    {
        let mut out: Vec<&T> = Vec::new();
        assert(derefs(out@) =~= Seq::<T>::empty());
        preorder_into(&self.root, &mut out);
        assert(derefs(out@) =~= preorder(self.root));
        out
    }

    /// The elements in in-order: each node between its left subtree and its
    /// right subtree.
    pub fn middle_root(&self) -> (r: Vec<&T>)
        ensures
            derefs(r@) == inorder(self.root_node()),
    {
        let mut out: Vec<&T> = Vec::new();
        assert(derefs(out@) =~= Seq::<T>::empty());
        inorder_into(&self.root, &mut out);
        assert(derefs(out@) =~= inorder(self.root));
        out
    }

    /// The elements in post-order: each node after its left subtree and its
    /// right subtree.
    pub fn last_root(&self) -> (r: Vec<&T>)
        ensures
            derefs(r@) == postorder(self.root_node()),
    {
        let mut out: Vec<&T> = Vec::new();
        assert(derefs(out@) =~= Seq::<T>::empty());
        postorder_into(&self.root, &mut out);
        assert(derefs(out@) =~= postorder(self.root));
        out
    }
}

/// How the three orders unfold: an empty subtree gives no element, and a
/// node gives its element before, between or after the elements of its
/// subtrees.
pub proof fn lemma_orders_unfold<T>(t: Option<Box<TreeNode<T>>>)
    ensures
        t is None ==> preorder(t) == Seq::<T>::empty() && inorder(t) == Seq::<T>::empty()
            && postorder(t) == Seq::<T>::empty(),
        t is Some ==> preorder(t) == seq![t.unwrap().value()] + preorder(t.unwrap().left_tree())
            + preorder(t.unwrap().right_tree()),
        t is Some ==> inorder(t) == inorder(t.unwrap().left_tree()) + seq![t.unwrap().value()]
            + inorder(t.unwrap().right_tree()),
        t is Some ==> postorder(t) == postorder(t.unwrap().left_tree()) + postorder(
            t.unwrap().right_tree(),
        ) + seq![t.unwrap().value()],
{
}

} // verus!
