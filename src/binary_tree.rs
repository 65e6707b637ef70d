//! An owned binary tree whose nodes sit in `Box`es, with the slot protocol of
//! `replace_node` and cursors (`Anchor`) that name a node by its path from the root.
use vstd::prelude::*;
use vstd::std_specs::cmp::PartialEqSpec;

pub mod bst;

verus! {

/// Which slot of its owner a node occupies: the left or right child slot of a node,
/// or the top (a root, or a node that has been detached and is owned by a caller).
#[derive(Clone, Copy, Debug, PartialEq, Eq, Structural)]
pub enum Side {
    Left,
    Right,
    Top,
}

/// A tree node: a value, two owned child slots, and the tag of the slot it sits in.
#[derive(Debug)]
pub struct TreeNode<T> {
    index: Side,
    left: Option<Box<TreeNode<T>>>,
    right: Option<Box<TreeNode<T>>>,
    elem: T,
}

impl<T> TreeNode<T> {
    /// The tag of the slot this node occupies.
    pub closed spec fn side(&self) -> Side {
        self.index
    }

    /// The value held by this node.
    pub closed spec fn val(&self) -> T {
        self.elem
    }

    /// The subtree owned by the left slot.
    pub closed spec fn left_link(&self) -> Option<Box<TreeNode<T>>> {
        self.left
    }

    /// The subtree owned by the right slot.
    pub closed spec fn right_link(&self) -> Option<Box<TreeNode<T>>> {
        self.right
    }

    /// Every child carries the tag of the slot it sits in, all the way down.
    pub closed spec fn tags_ok(&self) -> bool
        decreases self,
    {
        &&& tagged(self.left, Side::Left)
        &&& tagged(self.right, Side::Right)
        &&& (match self.left {
            Some(l) => l.tags_ok(),
            None => true,
        })
        &&& (match self.right {
            Some(r) => r.tags_ok(),
            None => true,
        })
    }
}

/// The subtree is empty or its root carries the tag `s`.
pub open spec fn tagged<T>(t: Option<Box<TreeNode<T>>>, s: Side) -> bool {
    match t {
        Some(n) => n.side() == s,
        None => true,
    }
}

/// The subtree is empty or its tags are consistent.
pub open spec fn link_tags_ok<T>(t: Option<Box<TreeNode<T>>>) -> bool {
    match t {
        Some(n) => n.tags_ok(),
        None => true,
    }
}

/// The values of a subtree, left subtree first, then the node, then the right subtree.
pub closed spec fn in_order_of<T>(t: Option<Box<TreeNode<T>>>) -> Seq<T>
    decreases t,
{
    match t {
        None => Seq::empty(),
        Some(n) => in_order_of(n.left) + seq![n.elem] + in_order_of(n.right),
    }
}

/// The values of a subtree, the node first, then its left and right subtrees.
pub closed spec fn pre_order_of<T>(t: Option<Box<TreeNode<T>>>) -> Seq<T>
    decreases t,
{
    match t {
        None => Seq::empty(),
        Some(n) => seq![n.elem] + pre_order_of(n.left) + pre_order_of(n.right),
    }
}

/// The values of a subtree, its left and right subtrees first, then the node.
pub closed spec fn post_order_of<T>(t: Option<Box<TreeNode<T>>>) -> Seq<T>
    decreases t,
{
    match t {
        None => Seq::empty(),
        Some(n) => post_order_of(n.left) + post_order_of(n.right) + seq![n.elem],
    }
}

/// The child slot named by `s` (a path never steps to `Top`).
pub closed spec fn child_of<T>(n: TreeNode<T>, s: Side) -> Option<Box<TreeNode<T>>> {
    match s {
        Side::Left => n.left,
        Side::Right => n.right,
        Side::Top => None,
    }
}

/// The node `n` with the child slot `s` holding `c`.
pub closed spec fn with_child<T>(n: TreeNode<T>, s: Side, c: Option<Box<TreeNode<T>>>) -> TreeNode<T> {
    match s {
        Side::Left => TreeNode { left: c, ..n },
        _ => TreeNode { right: c, ..n },
    }
}

/// The node `n` holding `v` in place of its value.
pub closed spec fn with_val<T>(n: TreeNode<T>, v: T) -> TreeNode<T> {
    TreeNode { elem: v, ..n }
}

/// The subtree with its root tagged `s`.
pub closed spec fn stamped<T>(t: Option<Box<TreeNode<T>>>, s: Side) -> Option<Box<TreeNode<T>>> {
    match t {
        Some(n) => Some(Box::new(TreeNode { index: s, ..*n })),
        None => None,
    }
}

/// The subtree reached from `t` by following `p` from step `i` on.
pub closed spec fn subtree_from<T>(t: Option<Box<TreeNode<T>>>, p: Seq<Side>, i: int) -> Option<Box<TreeNode<T>>>
    decreases p.len() - i,
{
    if i >= p.len() {
        t
    } else {
        match t {
            None => None,
            Some(n) => subtree_from(child_of(*n, p[i]), p, i + 1),
        }
    }
}

/// The slot named by `p` (from step `i` on) exists: every node on the way to it does.
pub closed spec fn slot_from<T>(t: Option<Box<TreeNode<T>>>, p: Seq<Side>, i: int) -> bool
    decreases p.len() - i,
{
    if i >= p.len() {
        true
    } else {
        match t {
            None => false,
            Some(n) => p[i] != Side::Top && slot_from(child_of(*n, p[i]), p, i + 1),
        }
    }
}

/// `t` with the slot named by `p` (from step `i` on) holding `new`, tagged for that slot;
/// `s` is the tag of the slot that holds `t` itself.
pub closed spec fn replaced_from<T>(
    t: Option<Box<TreeNode<T>>>,
    s: Side,
    p: Seq<Side>,
    i: int,
    new: Option<Box<TreeNode<T>>>,
) -> Option<Box<TreeNode<T>>>
    decreases p.len() - i,
{
    if i >= p.len() {
        stamped(new, s)
    } else {
        match t {
            None => None,
            Some(n) => Some(
                Box::new(with_child(*n, p[i], replaced_from(child_of(*n, p[i]), p[i], p, i + 1, new))),
            ),
        }
    }
}

/// The values that come before the slot named by `p` in in-order.
pub closed spec fn before_from<T>(t: Option<Box<TreeNode<T>>>, p: Seq<Side>, i: int) -> Seq<T>
    decreases p.len() - i,
{
    if i >= p.len() {
        Seq::empty()
    } else {
        match t {
            None => Seq::empty(),
            Some(n) => if p[i] == Side::Left {
                before_from(n.left, p, i + 1)
            } else {
                in_order_of(n.left) + seq![n.elem] + before_from(n.right, p, i + 1)
            },
        }
    }
}

/// The values that come after the slot named by `p` in in-order.
pub closed spec fn after_from<T>(t: Option<Box<TreeNode<T>>>, p: Seq<Side>, i: int) -> Seq<T>
    decreases p.len() - i,
{
    if i >= p.len() {
        Seq::empty()
    } else {
        match t {
            None => Seq::empty(),
            Some(n) => if p[i] == Side::Left {
                after_from(n.left, p, i + 1) + seq![n.elem] + in_order_of(n.right)
            } else {
                after_from(n.right, p, i + 1)
            },
        }
    }
}

/// Retagging the root of a subtree leaves its values in place.
pub proof fn lemma_stamped_orders<T>(t: Option<Box<TreeNode<T>>>, s: Side)
    ensures
        in_order_of(stamped(t, s)) == in_order_of(t),
        pre_order_of(stamped(t, s)) == pre_order_of(t),
        post_order_of(stamped(t, s)) == post_order_of(t),
        tagged(stamped(t, s), s),
        link_tags_ok(stamped(t, s)) == link_tags_ok(t),
{
    match t {
        Some(n) => {
            let m = TreeNode { index: s, ..*n };
            assert(in_order_of(Some(Box::new(m))) == in_order_of(m.left) + seq![m.elem] + in_order_of(m.right));
            assert(pre_order_of(Some(Box::new(m))) == seq![m.elem] + pre_order_of(m.left) + pre_order_of(m.right));
            assert(post_order_of(Some(Box::new(m))) == post_order_of(m.left) + post_order_of(m.right) + seq![m.elem]);
        },
        None => {},
    }
}

/// In-order of a subtree splits at any slot of it: the values before the slot,
/// those of the subtree in the slot, and the values after it.
pub proof fn lemma_split_in_order<T>(t: Option<Box<TreeNode<T>>>, p: Seq<Side>, i: int)
    requires
        0 <= i <= p.len(),
        slot_from(t, p, i),
    ensures
        in_order_of(t) == before_from(t, p, i) + in_order_of(subtree_from(t, p, i)) + after_from(t, p, i),
    decreases p.len() - i,
{
    if i >= p.len() {
        assert(before_from(t, p, i) + in_order_of(t) + after_from(t, p, i) =~= in_order_of(t));
    } else {
        let n = *t.unwrap();
        let c = child_of(n, p[i]);
        lemma_split_in_order(c, p, i + 1);
        let bc = before_from(c, p, i + 1);
        let ac = after_from(c, p, i + 1);
        let sc = in_order_of(subtree_from(c, p, i + 1));
        let v = seq![n.elem];
        let l = in_order_of(n.left);
        let r = in_order_of(n.right);
        assert(subtree_from(t, p, i) == subtree_from(c, p, i + 1));
        assert(in_order_of(t) == l + v + r);
        if p[i] == Side::Left {
            assert(l == bc + sc + ac);
            assert(l + v + r =~= bc + sc + (ac + v + r));
        } else {
            assert(r == bc + sc + ac);
            assert(l + v + r =~= (l + v + bc) + sc + ac);
        }
    }
}

/// Filling a slot changes in-order only where the old subtree stood.
pub proof fn lemma_replaced_in_order<T>(
    t: Option<Box<TreeNode<T>>>,
    s: Side,
    p: Seq<Side>,
    i: int,
    new: Option<Box<TreeNode<T>>>,
)
    requires
        0 <= i <= p.len(),
        slot_from(t, p, i),
    ensures
        in_order_of(replaced_from(t, s, p, i, new)) == before_from(t, p, i) + in_order_of(new) + after_from(t, p, i),
    decreases p.len() - i,
{
    if i >= p.len() {
        lemma_stamped_orders(new, s);
        assert(before_from(t, p, i) + in_order_of(new) + after_from(t, p, i) =~= in_order_of(new));
    } else {
        let n = *t.unwrap();
        let c = child_of(n, p[i]);
        lemma_replaced_in_order(c, p[i], p, i + 1, new);
        let rc = replaced_from(c, p[i], p, i + 1, new);
        let bc = before_from(c, p, i + 1);
        let ac = after_from(c, p, i + 1);
        let w = in_order_of(new);
        let v = seq![n.elem];
        let l = in_order_of(n.left);
        let r = in_order_of(n.right);
        assert(in_order_of(rc) == bc + w + ac);
        if p[i] == Side::Left {
            let m = TreeNode { left: rc, ..n };
            assert(replaced_from(t, s, p, i, new) == Some(Box::new(m)));
            assert(in_order_of(Some(Box::new(m))) == in_order_of(rc) + v + r);
            assert((bc + w + ac) + v + r =~= bc + w + (ac + v + r));
        } else {
            let m = TreeNode { right: rc, ..n };
            assert(replaced_from(t, s, p, i, new) == Some(Box::new(m)));
            assert(in_order_of(Some(Box::new(m))) == l + v + in_order_of(rc));
            assert(l + v + (bc + w + ac) =~= (l + v + bc) + w + ac);
        }
    }
}

/// Filling a slot twice is the same as filling it once with the second subtree.
pub proof fn lemma_replaced_twice<T>(
    t: Option<Box<TreeNode<T>>>,
    s: Side,
    p: Seq<Side>,
    i: int,
    a: Option<Box<TreeNode<T>>>,
    b: Option<Box<TreeNode<T>>>,
)
    requires
        0 <= i <= p.len(),
        slot_from(t, p, i),
    ensures
        slot_from(replaced_from(t, s, p, i, a), p, i),
        replaced_from(replaced_from(t, s, p, i, a), s, p, i, b) == replaced_from(t, s, p, i, b),
    decreases p.len() - i,
{
    if i < p.len() {
        let n = *t.unwrap();
        lemma_replaced_twice(child_of(n, p[i]), p[i], p, i + 1, a, b);
    }
}

/// Filling a slot with a subtree whose tags are consistent keeps the tags consistent,
/// and leaves the tag of the root as it was (or tags the new root `s`).
pub proof fn lemma_replaced_tags<T>(
    t: Option<Box<TreeNode<T>>>,
    s: Side,
    p: Seq<Side>,
    i: int,
    new: Option<Box<TreeNode<T>>>,
)
    requires
        0 <= i <= p.len(),
        slot_from(t, p, i),
        link_tags_ok(t),
        tagged(t, s),
        link_tags_ok(new),
    ensures
        link_tags_ok(replaced_from(t, s, p, i, new)),
        tagged(replaced_from(t, s, p, i, new), s),
    decreases p.len() - i,
{
    if i >= p.len() {
        lemma_stamped_orders(new, s);
    } else {
        let n = *t.unwrap();
        lemma_replaced_tags(child_of(n, p[i]), p[i], p, i + 1, new);
    }
}

/// The values behind a sequence of references.
pub open spec fn derefs<T>(s: Seq<&T>) -> Seq<T> {
    s.map_values(|r: &T| *r)
}

/// The subtree with its root retagged `s`.
fn stamp<T>(t: Option<Box<TreeNode<T>>>, s: Side) -> (r: Option<Box<TreeNode<T>>>)
    ensures
        r == stamped(t, s),
{
    match t {
        Some(mut b) => {
            b.index = s;
            Some(b)
        },
        None => None,
    }
}

/// The slot protocol: `new` (tagged for slot `index`) goes into that slot of `parent`,
/// and whatever was there comes back to the caller, tagged `Top`.
pub fn replace_node<T>(
    parent: &mut TreeNode<T>,
    index: Side,
    new_node: Option<Box<TreeNode<T>>>,
) -> (old_node: Option<Box<TreeNode<T>>>)
    requires
        index != Side::Top,
    ensures
        *final(parent) == with_child(*old(parent), index, stamped(new_node, index)),
        old_node == stamped(child_of(*old(parent), index), Side::Top),
{
    let new_node = stamp(new_node, index);
    if index == Side::Left {
        let old_node = parent.left.take();
        parent.left = new_node;
        stamp(old_node, Side::Top)
    } else {
        let old_node = parent.right.take();
        parent.right = new_node;
        stamp(old_node, Side::Top)
    }
}

impl<T> TreeNode<T> {
    /// A detached node holding `elem`, with no children.
    pub fn new(elem: T) -> (r: TreeNode<T>)
        ensures
            r.val() == elem,
            r.left_link() is None,
            r.right_link() is None,
            r.side() == Side::Top,
            r.tags_ok(),
    {
        TreeNode { index: Side::Top, left: None, right: None, elem }
    }

    /// Builder: this node with `node` as its left child; the left slot must be empty.
    pub fn l(self, node: TreeNode<T>) -> (r: TreeNode<T>)
        requires
            self.left_link() is None,
        ensures
            r == with_child(self, Side::Left, stamped(Some(Box::new(node)), Side::Left)),
            self.tags_ok() && node.tags_ok() ==> r.tags_ok(),
    {
        proof {
            lemma_stamped_orders(Some(Box::new(node)), Side::Left);
        }
        let mut me = self;
        replace_node(&mut me, Side::Left, Some(Box::new(node)));
        me
    }

    /// Builder: this node with `node` as its right child; the right slot must be empty.
    pub fn r(self, node: TreeNode<T>) -> (r: TreeNode<T>)
        requires
            self.right_link() is None,
        ensures
            r == with_child(self, Side::Right, stamped(Some(Box::new(node)), Side::Right)),
            self.tags_ok() && node.tags_ok() ==> r.tags_ok(),
    {
        proof {
            lemma_stamped_orders(Some(Box::new(node)), Side::Right);
        }
        let mut me = self;
        replace_node(&mut me, Side::Right, Some(Box::new(node)));
        me
    }

    pub fn is_left(&self) -> (r: bool)
        ensures
            r == (self.side() == Side::Left),
    {
        self.index == Side::Left
    }

    pub fn is_right(&self) -> (r: bool)
        ensures
            r == (self.side() == Side::Right),
    {
        self.index == Side::Right
    }

    pub fn is_root(&self) -> (r: bool)
        ensures
            r == (self.side() == Side::Top),
    {
        self.index == Side::Top
    }

    pub fn value(&self) -> (r: &T)
        ensures
            *r == self.val(),
    {
        &self.elem
    }

    pub fn value_mut(&mut self) -> (r: &mut T)
        ensures
            *r == old(self).val(),
            *final(self) == with_val(*old(self), *final(r)),
    {
        &mut self.elem
    }

    /// The left slot itself.
    pub fn left_raw(&self) -> (r: &Option<Box<TreeNode<T>>>)
        ensures
            *r == self.left_link(),
    {
        &self.left
    }

    /// The right slot itself.
    pub fn right_raw(&self) -> (r: &Option<Box<TreeNode<T>>>)
        ensures
            *r == self.right_link(),
    {
        &self.right
    }

    /// The left child, if any.
    pub fn left(&self) -> (r: Option<&TreeNode<T>>)
        ensures
            r is Some == self.left_link() is Some,
            r is Some ==> *r.unwrap() == *self.left_link().unwrap(),
    {
        match &self.left {
            Some(b) => Some(&**b),
            None => None,
        }
    }

    /// The right child, if any.
    pub fn right(&self) -> (r: Option<&TreeNode<T>>)
        ensures
            r is Some == self.right_link() is Some,
            r is Some ==> *r.unwrap() == *self.right_link().unwrap(),
    {
        match &self.right {
            Some(b) => Some(&**b),
            None => None,
        }
    }

    /// Puts `node` into the left slot and hands back what was there.
    pub fn replace_left(&mut self, node: Option<Box<TreeNode<T>>>) -> (r: Option<Box<TreeNode<T>>>)
        ensures
            *final(self) == with_child(*old(self), Side::Left, stamped(node, Side::Left)),
            r == stamped(old(self).left_link(), Side::Top),
            old(self).tags_ok() && link_tags_ok(node) ==> final(self).tags_ok(),
            link_tags_ok(old(self).left_link()) ==> link_tags_ok(r),
    {
        proof {
            lemma_stamped_orders(node, Side::Left);
            lemma_stamped_orders(self.left, Side::Top);
        }
        replace_node(self, Side::Left, node)
    }

    /// Puts `node` into the right slot and hands back what was there.
    pub fn replace_right(&mut self, node: Option<Box<TreeNode<T>>>) -> (r: Option<Box<TreeNode<T>>>)
        ensures
            *final(self) == with_child(*old(self), Side::Right, stamped(node, Side::Right)),
            r == stamped(old(self).right_link(), Side::Top),
            old(self).tags_ok() && link_tags_ok(node) ==> final(self).tags_ok(),
            link_tags_ok(old(self).right_link()) ==> link_tags_ok(r),
    {
        proof {
            lemma_stamped_orders(node, Side::Right);
            lemma_stamped_orders(self.right, Side::Top);
        }
        replace_node(self, Side::Right, node)
    }
}

/// A detached node holding `elem`: the short form used to write trees down.
#[allow(non_snake_case)]
pub fn Node<T>(elem: T) -> (r: TreeNode<T>)
    ensures
        r.val() == elem,
        r.left_link() is None,
        r.right_link() is None,
        r.side() == Side::Top,
        r.tags_ok(),
{
    TreeNode::new(elem)
}

/// A cursor into a `BinaryTree`: the path of child steps from the root to a node.
/// It owns nothing; the tree it is used with is handed to each operation.
#[derive(Debug)]
pub struct Anchor {
    path: Vec<Side>,
}

impl View for Anchor {
    type V = Seq<Side>;

    closed spec fn view(&self) -> Seq<Side> {
        self.path@
    }
}

impl Anchor {
    /// The cursor that follows `path` from the root.
    pub fn new(path: Vec<Side>) -> (r: Anchor)
        ensures
            r@ == path@,
    {
        Anchor { path }
    }

    /// The path itself.
    pub fn raw(&self) -> (r: &Vec<Side>)
        ensures
            r@ == self@,
    {
        &self.path
    }

    /// The cursor of the parent, unless this one names the root.
    pub fn parent(&self) -> (r: Option<Anchor>)
        ensures
            r is None == (self@.len() == 0),
            r is Some ==> r.unwrap()@ == self@.drop_last(),
    {
        if self.path.len() == 0 {
            None
        } else {
            let mut path = self.path.clone();
            path.pop();
            proof {
                assert(path@ =~= self@.drop_last());
            }
            Some(Anchor { path })
        }
    }

    /// The cursor one step further down, towards `side`.
    fn child(&self, side: Side) -> (r: Anchor)
        ensures
            r@ == self@.push(side),
    {
        let mut path = self.path.clone();
        path.push(side);
        Anchor { path }
    }

    /// The cursor of the left child of the node this one names in `tree`, if there is one.
    pub fn left<T>(&self, tree: &BinaryTree<T>) -> (r: Option<Anchor>)
        ensures
            r is Some == (tree.at(self@) is Some && tree.at(self@).unwrap().left_link() is Some),
            r is Some ==> r.unwrap()@ == self@.push(Side::Left),
    {
        match tree.get(self) {
            Some(n) => if n.left.is_some() {
                Some(self.child(Side::Left))
            } else {
                None
            },
            None => None,
        }
    }

    /// The cursor of the right child of the node this one names in `tree`, if there is one.
    pub fn right<T>(&self, tree: &BinaryTree<T>) -> (r: Option<Anchor>)
        ensures
            r is Some == (tree.at(self@) is Some && tree.at(self@).unwrap().right_link() is Some),
            r is Some ==> r.unwrap()@ == self@.push(Side::Right),
    {
        match tree.get(self) {
            Some(n) => if n.right.is_some() {
                Some(self.child(Side::Right))
            } else {
                None
            },
            None => None,
        }
    }

    /// Takes the node this cursor names out of `tree`, with its subtree, and hands it
    /// back tagged `Top`; its slot is left empty. The root cannot be detached this way.
    pub fn detach<T>(&self, tree: &mut BinaryTree<T>) -> (r: Box<TreeNode<T>>)
        requires
            old(tree).at(self@) is Some,
            self@.len() > 0,
        ensures
            Some(r) == stamped(old(tree).at(self@), Side::Top),
            final(tree).root_link() == replaced_from(old(tree).root_link(), Side::Top, self@, 0, None),
    {
        proof {
            lemma_found_slot(tree.root, self@, 0);
        }
        tree.replace_at(self, None).unwrap()
    }
}

/// A binary tree: the sole owner of its root node.
#[derive(Debug)]
pub struct BinaryTree<T> {
    root: Option<Box<TreeNode<T>>>,
}

/// Where a subtree is found at the end of a path, the slot of the path exists.
pub proof fn lemma_found_slot<T>(t: Option<Box<TreeNode<T>>>, p: Seq<Side>, i: int)
    requires
        0 <= i <= p.len(),
        subtree_from(t, p, i) is Some,
    ensures
        slot_from(t, p, i),
    decreases p.len() - i,
{
    if i < p.len() {
        if p[i] == Side::Top {
            lemma_none_below::<T>(p, i + 1);
        }
        lemma_found_slot(child_of(*t.unwrap(), p[i]), p, i + 1);
    }
}

impl<T> BinaryTree<T> {
    /// The root slot.
    pub closed spec fn root_link(&self) -> Option<Box<TreeNode<T>>> {
        self.root
    }

    /// The root carries the tag `Top` and every node the tag of its slot.
    pub open spec fn wf(&self) -> bool {
        tagged(self.root_link(), Side::Top) && link_tags_ok(self.root_link())
    }

    /// The node at the end of path `p`, with its subtree.
    pub open spec fn at(&self, p: Seq<Side>) -> Option<Box<TreeNode<T>>> {
        subtree_from(self.root_link(), p, 0)
    }

    /// The values of the tree in in-order.
    pub open spec fn in_order_seq(&self) -> Seq<T> {
        in_order_of(self.root_link())
    }

    /// The number of nodes.
    pub open spec fn size(&self) -> nat {
        self.in_order_seq().len()
    }

    pub fn new_empty() -> (r: BinaryTree<T>)
        ensures
            r.root_link() is None,
            r.wf(),
    {
        BinaryTree { root: None }
    }

    /// The tree whose root is `node`.
    pub fn new(node: TreeNode<T>) -> (r: BinaryTree<T>)
        ensures
            r.root_link() == stamped(Some(Box::new(node)), Side::Top),
            node.tags_ok() ==> r.wf(),
    {
        proof {
            lemma_stamped_orders(Some(Box::new(node)), Side::Top);
        }
        BinaryTree { root: stamp(Some(Box::new(node)), Side::Top) }
    }

    /// Puts `node` at the root and hands back the old root with its subtree.
    pub fn replace_root(&mut self, node: Option<Box<TreeNode<T>>>) -> (r: Option<Box<TreeNode<T>>>)
        ensures
            final(self).root_link() == stamped(node, Side::Top),
            r == stamped(old(self).root_link(), Side::Top),
            old(self).wf() && link_tags_ok(node) ==> final(self).wf(),
    {
        proof {
            lemma_stamped_orders(node, Side::Top);
            lemma_stamped_orders(self.root, Side::Top);
        }
        let prev = self.root.take();
        self.root = stamp(node, Side::Top);
        stamp(prev, Side::Top)
    }

    /// The cursor of the root, unless the tree is empty.
    pub fn root(&self) -> (r: Option<Anchor>)
        ensures
            r is Some == self.root_link() is Some,
            r is Some ==> r.unwrap()@ == Seq::<Side>::empty(),
    {
        if self.root.is_some() {
            Some(Anchor { path: Vec::new() })
        } else {
            None
        }
    }

    /// The root slot itself.
    pub fn root_raw(&self) -> (r: &Option<Box<TreeNode<T>>>)
        ensures
            *r == self.root_link(),
    {
        &self.root
    }

    /// The node that `a` names, if the tree has one there.
    pub fn get(&self, a: &Anchor) -> (r: Option<&TreeNode<T>>)
        ensures
            r is Some == self.at(a@) is Some,
            r is Some ==> *r.unwrap() == *self.at(a@).unwrap(),
    {
        let mut cur: &Option<Box<TreeNode<T>>> = &self.root;
        let mut i: usize = 0;
        while i < a.path.len()
            invariant
                i <= a.path.len(),
                subtree_from(*cur, a@, i as int) == self.at(a@),
            decreases a.path.len() - i,
        {
            match cur {
                None => {
                    return None;
                },
                Some(n) => {
                    let step = a.path[i];
                    if step == Side::Left {
                        cur = &n.left;
                    } else if step == Side::Right {
                        cur = &n.right;
                    } else {
                        proof {
                            assert(child_of(**n, step) is None);
                            lemma_none_below::<T>(a@, i as int + 1);
                        }
                        return None;
                    }
                },
            }
            i = i + 1;
        }
        match cur {
            Some(n) => Some(&**n),
            None => None,
        }
    }

    /// Puts `node` into the slot that `a` names (the root slot, or a child slot of an
    /// existing node) and hands back the subtree that was there, tagged `Top`.
    pub fn replace_at(&mut self, a: &Anchor, node: Option<Box<TreeNode<T>>>) -> (r: Option<Box<TreeNode<T>>>)
        requires
            slot_from(old(self).root_link(), a@, 0),
        ensures
            final(self).root_link() == replaced_from(old(self).root_link(), Side::Top, a@, 0, node),
            r == stamped(old(self).at(a@), Side::Top),
            final(self).in_order_seq() == before_from(old(self).root_link(), a@, 0) + in_order_of(node)
                + after_from(old(self).root_link(), a@, 0),
            old(self).wf() && link_tags_ok(node) ==> final(self).wf(),
    {
        proof {
            lemma_replaced_in_order(self.root, Side::Top, a@, 0, node);
            if self.wf() && link_tags_ok(node) {
                lemma_replaced_tags(self.root, Side::Top, a@, 0, node);
            }
        }
        replace_link(&mut self.root, Side::Top, &a.path, 0, node)
    }

    /// References to the values in in-order: left subtree, node, right subtree.
    pub fn in_order(&self) -> (r: Vec<&T>)
        ensures
            derefs(r@) == self.in_order_seq(),
    {
        let mut out: Vec<&T> = Vec::new();
        collect(&self.root, Order::In, &mut out);
        proof {
            assert(derefs(out@) =~= derefs(Seq::<&T>::empty()) + in_order_of(self.root));
        }
        out
    }

    /// References to the values in pre-order: node, left subtree, right subtree.
    pub fn pre_order(&self) -> (r: Vec<&T>)
        ensures
            derefs(r@) == pre_order_of(self.root_link()),
    {
        let mut out: Vec<&T> = Vec::new();
        collect(&self.root, Order::Pre, &mut out);
        proof {
            assert(derefs(out@) =~= derefs(Seq::<&T>::empty()) + pre_order_of(self.root));
        }
        out
    }

    /// References to the values in post-order: left subtree, right subtree, node.
    pub fn post_order(&self) -> (r: Vec<&T>)
        ensures
            derefs(r@) == post_order_of(self.root_link()),
    {
        let mut out: Vec<&T> = Vec::new();
        collect(&self.root, Order::Post, &mut out);
        proof {
            assert(derefs(out@) =~= derefs(Seq::<&T>::empty()) + post_order_of(self.root));
        }
        out
    }
}

/// One more step down a path reaches the matching child of the node the path names.
pub proof fn lemma_subtree_push<T>(t: Option<Box<TreeNode<T>>>, p: Seq<Side>, s: Side, i: int)
    requires
        0 <= i <= p.len(),
    ensures
        subtree_from(t, p.push(s), i) == (match subtree_from(t, p, i) {
            Some(n) => child_of(*n, s),
            None => None,
        }),
    decreases p.len() - i,
{
    let q = p.push(s);
    assert(q.len() == p.len() + 1);
    if i < p.len() {
        assert(q[i] == p[i]);
        match t {
            Some(n) => {
                lemma_subtree_push(child_of(*n, p[i]), p, s, i + 1);
                assert(subtree_from(t, q, i) == subtree_from(child_of(*n, p[i]), q, i + 1));
                assert(subtree_from(t, p, i) == subtree_from(child_of(*n, p[i]), p, i + 1));
            },
            None => {},
        }
    } else {
        assert(q[i] == s);
        match t {
            Some(n) => {
                assert(subtree_from(t, q, i) == subtree_from(child_of(*n, s), q, i + 1));
                assert(subtree_from(child_of(*n, s), q, i + 1) == child_of(*n, s));
            },
            None => {},
        }
    }
}

/// `new` has the shape and tags of `old`, and each of its values is one that `f` may
/// return for the value in the same place of `old`.
pub closed spec fn mapped_by<T, F: Fn(&T) -> T>(old: Option<Box<TreeNode<T>>>, new: Option<Box<TreeNode<T>>>, f: F) -> bool
    decreases old,
{
    match (old, new) {
        (None, None) => true,
        (Some(o), Some(n)) => {
            &&& n.index == o.index
            &&& f.ensures((&o.elem,), n.elem)
            &&& mapped_by(o.left, n.left, f)
            &&& mapped_by(o.right, n.right, f)
        },
        _ => false,
    }
}

/// `f` may be called on every value of the subtree.
pub closed spec fn callable_on<T, F: Fn(&T) -> T>(t: Option<Box<TreeNode<T>>>, f: F) -> bool
    decreases t,
{
    match t {
        None => true,
        Some(n) => f.requires((&n.elem,)) && callable_on(n.left, f) && callable_on(n.right, f),
    }
}

/// Replaces each value of the subtree in `link` by what `f` returns for it, calling `f`
/// on the values in the order `o`.
fn map_link<T, F: Fn(&T) -> T>(link: &mut Option<Box<TreeNode<T>>>, f: &F, o: Order)
    requires
        callable_on(*old(link), *f),
    ensures
        mapped_by(*old(link), *final(link), *f),
    decreases *old(link),
{
    match link.take() {
        None => {},
        Some(mut n) => {
            if o == Order::Pre {
                n.elem = f(&n.elem);
            }
            map_link(&mut n.left, f, o);
            if o == Order::In {
                n.elem = f(&n.elem);
            }
            map_link(&mut n.right, f, o);
            if o == Order::Post {
                n.elem = f(&n.elem);
            }
            *link = Some(n);
        },
    }
}

/// Mapping a subtree keeps its tags consistent.
proof fn lemma_mapped_tags<T, F: Fn(&T) -> T>(old: Option<Box<TreeNode<T>>>, new: Option<Box<TreeNode<T>>>, f: F)
    requires
        mapped_by(old, new, f),
    ensures
        link_tags_ok(old) ==> link_tags_ok(new),
        forall|s: Side| tagged(old, s) ==> tagged(new, s),
    decreases old,
{
    match (old, new) {
        (Some(o), Some(n)) => {
            lemma_mapped_tags(o.left, n.left, f);
            lemma_mapped_tags(o.right, n.right, f);
        },
        _ => {},
    }
}

impl<T> BinaryTree<T> {
    /// Replaces each value by what `f` returns for it, calling `f` on the values in
    /// in-order.
    pub fn in_order_mut<F: Fn(&T) -> T>(&mut self, f: F)
        requires
            callable_on(old(self).root_link(), f),
        ensures
            mapped_by(old(self).root_link(), final(self).root_link(), f),
            old(self).wf() ==> final(self).wf(),
    {
        map_link(&mut self.root, &f, Order::In);
        proof {
            lemma_mapped_tags(old(self).root, self.root, f);
        }
    }

    /// Replaces each value by what `f` returns for it, calling `f` on the values in
    /// pre-order.
    pub fn pre_order_mut<F: Fn(&T) -> T>(&mut self, f: F)
        requires
            callable_on(old(self).root_link(), f),
        ensures
            mapped_by(old(self).root_link(), final(self).root_link(), f),
            old(self).wf() ==> final(self).wf(),
    {
        map_link(&mut self.root, &f, Order::Pre);
        proof {
            lemma_mapped_tags(old(self).root, self.root, f);
        }
    }

    /// Replaces each value by what `f` returns for it, calling `f` on the values in
    /// post-order.
    pub fn post_order_mut<F: Fn(&T) -> T>(&mut self, f: F)
        requires
            callable_on(old(self).root_link(), f),
        ensures
            mapped_by(old(self).root_link(), final(self).root_link(), f),
            old(self).wf() ==> final(self).wf(),
    {
        map_link(&mut self.root, &f, Order::Post);
        proof {
            lemma_mapped_tags(old(self).root, self.root, f);
        }
    }
}

/// The two subtrees have the same shape and equal values in the same places.
pub closed spec fn same_tree<T: PartialEqSpec>(a: Option<Box<TreeNode<T>>>, b: Option<Box<TreeNode<T>>>) -> bool
    decreases a,
{
    match (a, b) {
        (None, None) => true,
        (Some(x), Some(y)) => {
            &&& x.elem.eq_spec(&y.elem)
            &&& same_tree(x.left, y.left)
            &&& same_tree(x.right, y.right)
        },
        _ => false,
    }
}

/// Whether the two subtrees have the same shape and equal values in the same places.
fn links_match<T: PartialEq + PartialEqSpec>(a: &Option<Box<TreeNode<T>>>, b: &Option<Box<TreeNode<T>>>) -> (r: bool)
    ensures
        T::obeys_eq_spec() ==> r == same_tree(*a, *b),
    decreases *a,
{
    match (a, b) {
        (None, None) => true,
        (Some(x), Some(y)) => x.elem == y.elem && links_match(&x.left, &y.left) && links_match(&x.right, &y.right),
        _ => false,
    }
}

/// Two nodes are equal when their values are and their subtrees match; tags are not compared.
impl<T: PartialEq + PartialEqSpec> PartialEq for TreeNode<T> {
    fn eq(&self, other: &TreeNode<T>) -> (r: bool) {
        self.elem == other.elem && links_match(&self.left, &other.left) && links_match(&self.right, &other.right)
    }
}

impl<T: PartialEq + PartialEqSpec> vstd::std_specs::cmp::PartialEqSpecImpl for TreeNode<T> {
    open spec fn obeys_eq_spec() -> bool {
        T::obeys_eq_spec()
    }

    closed spec fn eq_spec(&self, other: &TreeNode<T>) -> bool {
        same_tree(Some(Box::new(*self)), Some(Box::new(*other)))
    }
}

/// Two trees are equal when both are empty or their roots are equal.
impl<T: PartialEq + PartialEqSpec> PartialEq for BinaryTree<T> {
    fn eq(&self, other: &BinaryTree<T>) -> (r: bool) {
        links_match(&self.root, &other.root)
    }
}

impl<T: PartialEq + PartialEqSpec> vstd::std_specs::cmp::PartialEqSpecImpl for BinaryTree<T> {
    open spec fn obeys_eq_spec() -> bool {
        T::obeys_eq_spec()
    }

    closed spec fn eq_spec(&self, other: &BinaryTree<T>) -> bool {
        same_tree(self.root, other.root)
    }
}

/// Past a step to `Top` a path names nothing.
proof fn lemma_none_below<T>(p: Seq<Side>, i: int)
    requires
        0 <= i,
    ensures
        subtree_from(None::<Box<TreeNode<T>>>, p, i) is None,
{
}

/// The order in which a traversal lists a node against its subtrees.
#[derive(Clone, Copy, PartialEq, Eq, Structural)]
enum Order {
    In,
    Pre,
    Post,
}

spec fn order_of<T>(t: Option<Box<TreeNode<T>>>, o: Order) -> Seq<T> {
    match o {
        Order::In => in_order_of(t),
        Order::Pre => pre_order_of(t),
        Order::Post => post_order_of(t),
    }
}

/// Appends references to the values of `t` to `out`, in the order `o`.
fn collect<'a, T>(t: &'a Option<Box<TreeNode<T>>>, o: Order, out: &mut Vec<&'a T>)
    ensures
        derefs(final(out)@) == derefs(old(out)@) + order_of(*t, o),
    decreases *t,
{
    match t {
        None => {
            assert(derefs(out@) =~= derefs(out@) + order_of(*t, o));
        },
        Some(n) => {
            let ghost d0 = derefs(out@);
            let ghost v = seq![n.elem];
            if o == Order::Pre {
                out.push(&n.elem);
                assert(derefs(out@) =~= d0 + v);
            }
            collect(&n.left, o, out);
            let ghost d1 = derefs(out@);
            if o == Order::In {
                out.push(&n.elem);
                assert(derefs(out@) =~= d1 + v);
            }
            collect(&n.right, o, out);
            let ghost d2 = derefs(out@);
            if o == Order::Post {
                out.push(&n.elem);
                assert(derefs(out@) =~= d2 + v);
            }
            assert(derefs(out@) =~= d0 + order_of(*t, o));
        },
    }
}

/// Follows `p` from step `i` on down from `link`, puts `new` into the slot found there
/// (tagged for it), and hands back what was there, tagged `Top`; `s` tags `link` itself.
fn replace_link<T>(
    link: &mut Option<Box<TreeNode<T>>>,
    s: Side,
    p: &Vec<Side>,
    i: usize,
    new: Option<Box<TreeNode<T>>>,
) -> (r: Option<Box<TreeNode<T>>>)
    requires
        i <= p.len(),
        slot_from(*old(link), p@, i as int),
    ensures
        *final(link) == replaced_from(*old(link), s, p@, i as int, new),
        r == stamped(subtree_from(*old(link), p@, i as int), Side::Top),
    decreases p.len() - i,
{
    if i >= p.len() {
        let prev = link.take();
        *link = stamp(new, s);
        stamp(prev, Side::Top)
    } else {
        let mut n = link.take().unwrap();
        let step = p[i];
        let r = if step == Side::Left {
            replace_link(&mut n.left, Side::Left, p, i + 1, new)
        } else {
            replace_link(&mut n.right, Side::Right, p, i + 1, new)
        };
        *link = Some(n);
        r
    }
}

/// Stepping down to a child and back up to the parent returns to the same node:
/// `left` and `right` extend the path by one step and `parent` drops the last one.
pub proof fn lemma_child_parent(a: Anchor, c: Anchor, s: Side)
    requires
        c@ == a@.push(s),
    ensures
        c@.len() > 0,
        c@.drop_last() == a@,
{
    assert(a@.push(s).drop_last() =~= a@);
}

} // verus!
