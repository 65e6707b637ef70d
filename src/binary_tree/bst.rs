//! An unbalanced binary search tree of `i64` keys on top of `BinaryTree`: smaller
//! keys to the left, equal or greater keys to the right.
use vstd::multiset::Multiset;
use vstd::prelude::*;
use vstd::seq_lib::{lemma_multiset_commutative, to_multiset_contains};
use super::{
    after_from, before_from, child_of, in_order_of, lemma_found_slot, lemma_replaced_in_order,
    lemma_replaced_twice, lemma_split_in_order, lemma_stamped_orders, lemma_subtree_push,
    link_tags_ok, replaced_from, slot_from, stamped, subtree_from, tagged, Anchor, BinaryTree, Side,
    TreeNode,
};
use crate::common::sorted;

verus! {

/// Every node's left subtree holds only smaller keys, and its right subtree only keys
/// that are equal or greater.
pub closed spec fn ordered(t: Option<Box<TreeNode<i64>>>) -> bool
    decreases t,
{
    match t {
        None => true,
        Some(n) => {
            &&& (forall|x: i64| #[trigger] in_order_of(n.left).contains(x) ==> x < n.elem)
            &&& (forall|x: i64| #[trigger] in_order_of(n.right).contains(x) ==> n.elem <= x)
            &&& ordered(n.left)
            &&& ordered(n.right)
        },
    }
}

/// In-order of an ordered tree is sorted.
pub proof fn lemma_ordered_sorted(t: Option<Box<TreeNode<i64>>>)
    requires
        ordered(t),
    ensures
        sorted(in_order_of(t)),
    decreases t,
{
    match t {
        None => {},
        Some(n) => {
            lemma_ordered_sorted(n.left);
            lemma_ordered_sorted(n.right);
            let l = in_order_of(n.left);
            let r = in_order_of(n.right);
            let s = l + seq![n.elem] + r;
            assert(in_order_of(t) == s);
            assert forall|a: int, b: int| 0 <= a <= b < s.len() implies s[a] <= s[b] by {
                if a < l.len() {
                    assert(l.contains(l[a]));
                    if b > l.len() {
                        assert(r.contains(r[b - l.len() - 1]));
                    }
                } else if a == l.len() {
                    if b > l.len() {
                        assert(r.contains(r[b - l.len() - 1]));
                    }
                }
            }
        },
    }
}

/// Retagging the root leaves the order of the keys alone.
proof fn lemma_stamped_ordered(t: Option<Box<TreeNode<i64>>>, s: Side)
    ensures
        ordered(stamped(t, s)) == ordered(t),
{
}

/// Filling a slot of an ordered tree with an ordered subtree whose keys were all in the
/// subtree that stood there keeps the tree ordered.
pub proof fn lemma_replaced_ordered(
    t: Option<Box<TreeNode<i64>>>,
    s: Side,
    p: Seq<Side>,
    i: int,
    new: Option<Box<TreeNode<i64>>>,
)
    requires
        0 <= i <= p.len(),
        slot_from(t, p, i),
        ordered(t),
        ordered(new),
        forall|x: i64| #[trigger] in_order_of(new).contains(x) ==> in_order_of(subtree_from(t, p, i)).contains(x),
    ensures
        ordered(replaced_from(t, s, p, i, new)),
        forall|x: i64| #[trigger] in_order_of(replaced_from(t, s, p, i, new)).contains(x) ==> in_order_of(t).contains(x),
    decreases p.len() - i,
{
    lemma_split_in_order(t, p, i);
    lemma_replaced_in_order(t, s, p, i, new);
    let b = before_from(t, p, i);
    let a = after_from(t, p, i);
    let w = in_order_of(new);
    let o = in_order_of(subtree_from(t, p, i));
    assert forall|x: i64| #[trigger] in_order_of(replaced_from(t, s, p, i, new)).contains(x) implies in_order_of(t).contains(x) by {
        let k = choose|k: int| 0 <= k < (b + w + a).len() && (b + w + a)[k] == x;
        if k < b.len() {
            assert((b + o + a)[k] == x);
        } else if k < b.len() + w.len() {
            assert(w.contains(w[k - b.len()]));
            let j = choose|j: int| 0 <= j < o.len() && o[j] == x;
            assert((b + o + a)[b.len() + j] == x);
        } else {
            assert((b + o + a)[k - w.len() + o.len()] == x);
        }
    }
    if i >= p.len() {
        lemma_stamped_ordered(new, s);
    } else {
        let n = *t.unwrap();
        let c = child_of(n, p[i]);
        lemma_replaced_ordered(c, p[i], p, i + 1, new);
        let rc = replaced_from(c, p[i], p, i + 1, new);
        if p[i] == Side::Left {
            let m = TreeNode { left: rc, ..n };
            assert(replaced_from(t, s, p, i, new) == Some(Box::new(m)));
        } else {
            let m = TreeNode { right: rc, ..n };
            assert(replaced_from(t, s, p, i, new) == Some(Box::new(m)));
        }
    }
}

/// A binary search tree of `i64` keys.
pub struct BST {
    tree: BinaryTree<i64>,
}

impl View for BST {
    type V = Seq<i64>;

    /// The keys in in-order.
    closed spec fn view(&self) -> Seq<i64> {
        self.tree.in_order_seq()
    }
}

impl BST {
    /// The underlying tree.
    pub closed spec fn inner(&self) -> BinaryTree<i64> {
        self.tree
    }

    /// The tree is well formed and ordered.
    pub closed spec fn wf(&self) -> bool {
        self.tree.wf() && ordered(self.tree.root_link())
    }

    /// The in-order position of the node that `p` names.
    pub closed spec fn rank(&self, p: Seq<Side>) -> int {
        before_from(self.tree.root_link(), p, 0).len() + in_order_of(self.tree.at(p).unwrap().left).len() as int
    }

    /// The view of a well-formed tree is `inner`'s in-order, and it is sorted.
    pub proof fn lemma_view(&self)
        requires
            self.wf(),
        ensures
            self@ == self.inner().in_order_seq(),
            sorted(self@),
            self.inner().wf(),
    {
        lemma_ordered_sorted(self.tree.root);
    }

    pub fn new() -> (r: BST)
        ensures
            r.wf(),
            r@ == Seq::<i64>::empty(),
    {
        BST { tree: BinaryTree::new_empty() }
    }

    /// The underlying tree, to read nodes through cursors.
    pub fn tree(&self) -> (r: &BinaryTree<i64>)
        ensures
            *r == self.inner(),
    {
        &self.tree
    }

    /// Adds `elem`: it goes left of every node whose key is greater and right of the
    /// others, into the empty slot where that descent ends.
    pub fn insert(&mut self, elem: i64)
        requires
            old(self).wf(),
        ensures
            final(self).wf(),
            final(self)@.to_multiset() == old(self)@.to_multiset().insert(elem),
            final(self).inner().root_link() == inserted(old(self).inner().root_link(), Side::Top, elem),
    {
        insert_link(&mut self.tree.root, Side::Top, elem);
    }
}

impl BST {
    /// The cursor of a node with key `key`: the first one met on the way down from
    /// the root, or `None` where the tree holds no such key.
    pub fn search(&self, key: i64) -> (r: Option<Anchor>)
        requires
            self.wf(),
        ensures
            r is Some <==> self@.contains(key),
            r is Some ==> self.inner().at(r.unwrap()@) is Some && self.inner().at(r.unwrap()@).unwrap().val() == key,
    {
        let mut cur: &Option<Box<TreeNode<i64>>> = &self.tree.root;
        let mut path: Vec<Side> = Vec::new();
        loop
            invariant
                subtree_from(self.tree.root, path@, 0) == *cur,
                ordered(*cur),
                self@.contains(key) ==> in_order_of(*cur).contains(key),
                in_order_of(*cur).contains(key) ==> self@.contains(key),
            decreases *cur,
        {
            match cur {
                None => {
                    return None;
                },
                Some(n) => {
                    if n.elem == key {
                        proof {
                            assert(in_order_of(*cur) == in_order_of(n.left) + seq![n.elem] + in_order_of(n.right));
                            assert(in_order_of(*cur)[in_order_of(n.left).len() as int] == key);
                        }
                        return Some(Anchor { path });
                    }
                    let ghost l = in_order_of(n.left);
                    let ghost rr = in_order_of(n.right);
                    proof {
                        assert(in_order_of(*cur) == l + seq![n.elem] + rr);
                        lemma_subtree_push(self.tree.root, path@, Side::Left, 0);
                        lemma_subtree_push(self.tree.root, path@, Side::Right, 0);
                    }
                    if n.elem > key {
                        proof {
                            if in_order_of(*cur).contains(key) {
                                let k = choose|k: int| 0 <= k < in_order_of(*cur).len() && in_order_of(*cur)[k] == key;
                                if k > l.len() {
                                    assert(rr.contains(rr[k - l.len() - 1]));
                                } else if k < l.len() {
                                    assert(l[k] == key);
                                }
                            }
                            if l.contains(key) {
                                let k = choose|k: int| 0 <= k < l.len() && l[k] == key;
                                assert(in_order_of(*cur)[k] == key);
                            }
                        }
                        path.push(Side::Left);
                        cur = &n.left;
                    } else {
                        proof {
                            if in_order_of(*cur).contains(key) {
                                let k = choose|k: int| 0 <= k < in_order_of(*cur).len() && in_order_of(*cur)[k] == key;
                                if k < l.len() {
                                    assert(l.contains(l[k]));
                                } else if k > l.len() {
                                    assert(rr[k - l.len() - 1] == key);
                                }
                            }
                            if rr.contains(key) {
                                let k = choose|k: int| 0 <= k < rr.len() && rr[k] == key;
                                assert(in_order_of(*cur)[l.len() + 1 + k] == key);
                            }
                        }
                        path.push(Side::Right);
                        cur = &n.right;
                    }
                },
            }
        }
    }

    /// The cursor of the node with the least key in the subtree that `x` names:
    /// the end of the walk down its left slots.
    pub fn minimum_from(&self, x: Anchor) -> (r: Anchor)
        requires
            self.inner().at(x@) is Some,
        ensures
            self.inner().at(r@) is Some,
            self.inner().at(r@).unwrap().left_link() is None,
            self.inner().at(r@).unwrap().val() == in_order_of(self.inner().at(x@))[0],
    {
        self.extreme_from(x, Side::Left)
    }

    /// The cursor of the node with the greatest key in the subtree that `x` names:
    /// the end of the walk down its right slots.
    pub fn maximum_from(&self, x: Anchor) -> (r: Anchor)
        requires
            self.inner().at(x@) is Some,
        ensures
            self.inner().at(r@) is Some,
            self.inner().at(r@).unwrap().right_link() is None,
            self.inner().at(r@).unwrap().val() == in_order_of(self.inner().at(x@)).last(),
    {
        self.extreme_from(x, Side::Right)
    }

    /// Walks down from `x` through the slots on `side` for as long as they hold a node.
    fn extreme_from(&self, x: Anchor, side: Side) -> (r: Anchor)
        requires
            self.inner().at(x@) is Some,
            side != Side::Top,
        ensures
            self.inner().at(r@) is Some,
            child_of(*self.inner().at(r@).unwrap(), side) is None,
            side == Side::Left ==> self.inner().at(r@).unwrap().val() == in_order_of(self.inner().at(x@))[0],
            side == Side::Right ==> self.inner().at(r@).unwrap().val() == in_order_of(self.inner().at(x@)).last(),
    {
        let mut path = x.path;
        let mut cur: &TreeNode<i64> = self.tree.get(&Anchor { path: path.clone() }).unwrap();
        proof {
            assert(path@ == x@);
        }
        loop
            invariant
                side != Side::Top,
                self.tree.at(path@) == Some(Box::new(*cur)),
                side == Side::Left ==> in_order_of(Some(Box::new(*cur)))[0] == in_order_of(self.inner().at(x@))[0],
                side == Side::Right ==> in_order_of(Some(Box::new(*cur))).last() == in_order_of(self.inner().at(x@)).last(),
            decreases *cur,
        {
            let next = if side == Side::Left {
                &cur.left
            } else {
                &cur.right
            };
            match next {
                None => {
                    proof {
                        let t = in_order_of(Some(Box::new(*cur)));
                        assert(t == in_order_of(cur.left) + seq![cur.elem] + in_order_of(cur.right));
                        if side == Side::Left {
                            assert(t[0] == cur.elem);
                        } else {
                            assert(t.last() == cur.elem);
                        }
                    }
                    return Anchor { path };
                },
                Some(c) => {
                    proof {
                        lemma_subtree_push(self.tree.root, path@, side, 0);
                        let t = in_order_of(Some(Box::new(*cur)));
                        assert(t == in_order_of(cur.left) + seq![cur.elem] + in_order_of(cur.right));
                        assert(in_order_of(Some(Box::new(**c))) == in_order_of(Some(*c)));
                        if side == Side::Left {
                            assert(t[0] == in_order_of(cur.left)[0]);
                        } else {
                            assert(t.last() == in_order_of(cur.right).last());
                        }
                    }
                    path.push(side);
                    cur = &**c;
                },
            }
        }
    }

    /// The cursor of a node with the least key, or `None` for an empty tree.
    pub fn minimum(&self) -> (r: Option<Anchor>)
        requires
            self.wf(),
        ensures
            r is Some == (self@.len() > 0),
            r is Some ==> self.inner().at(r.unwrap()@) is Some && self.inner().at(r.unwrap()@).unwrap().val() == self@[0],
            r is Some ==> forall|k: int| 0 <= k < self@.len() ==> self.inner().at(r.unwrap()@).unwrap().val() <= self@[k],
    {
        proof {
            self.lemma_view();
        }
        match self.tree.root() {
            Some(a) => Some(self.minimum_from(a)),
            None => None,
        }
    }

    /// The cursor of a node with the greatest key, or `None` for an empty tree.
    pub fn maximum(&self) -> (r: Option<Anchor>)
        requires
            self.wf(),
        ensures
            r is Some == (self@.len() > 0),
            r is Some ==> self.inner().at(r.unwrap()@) is Some && self.inner().at(r.unwrap()@).unwrap().val() == self@.last(),
            r is Some ==> forall|k: int| 0 <= k < self@.len() ==> self@[k] <= self.inner().at(r.unwrap()@).unwrap().val(),
    {
        proof {
            self.lemma_view();
        }
        match self.tree.root() {
            Some(a) => Some(self.maximum_from(a)),
            None => None,
        }
    }
}

impl BST {
    /// Removes the node that `z` names. A node with at most one child is replaced by
    /// that child; a node with two is replaced by its in-order successor (the least
    /// node of its right subtree), which takes over both of its subtrees.
    #[verifier::rlimit(40)]
    pub fn delete(&mut self, z: Anchor)
        requires
            old(self).wf(),
            old(self).inner().at(z@) is Some,
        ensures
            final(self).wf(),
            0 <= old(self).rank(z@) < old(self)@.len(),
            old(self)@[old(self).rank(z@)] == old(self).inner().at(z@).unwrap().val(),
            final(self)@ == old(self)@.remove(old(self).rank(z@)),
            final(self).inner().root_link() == replaced_from(
                old(self).inner().root_link(),
                Side::Top,
                z@,
                0,
                unlinked(*old(self).inner().at(z@).unwrap()),
            ),
    {
        let ghost t0 = self.tree.root;
        let ghost p = z@;
        proof {
            lemma_found_slot(t0, p, 0);
        }
        let zb = self.tree.replace_at(&z, None);
        let zn = zb.unwrap();
        let ghost z0 = *zn;
        let ghost l = in_order_of(z0.left);
        let ghost r = in_order_of(z0.right);
        proof {
            lemma_split_in_order(t0, p, 0);
            lemma_stamped_orders(subtree_from(t0, p, 0), Side::Top);
            lemma_stamped_ordered(subtree_from(t0, p, 0), Side::Top);
            lemma_subtree_ordered(t0, p, 0);
            lemma_subtree_tags(t0, p, 0);
            assert(in_order_of(Some(zn)) == l + seq![z0.elem] + r);
        }
        let new = unlink(zn);
        proof {
            assert forall|x: i64| #[trigger] in_order_of(new).contains(x) implies in_order_of(subtree_from(t0, p, 0)).contains(x) by {
                let s = l + seq![z0.elem] + r;
                let k = choose|k: int| 0 <= k < (l + r).len() && (l + r)[k] == x;
                if k < l.len() {
                    assert(s[k] == x);
                } else {
                    assert(s[k + 1] == x);
                }
            }
            lemma_replaced_ordered(t0, Side::Top, p, 0, new);
            lemma_replaced_twice(t0, Side::Top, p, 0, None, new);
            lemma_replaced_in_order(t0, Side::Top, p, 0, new);
            let b = before_from(t0, p, 0);
            let a = after_from(t0, p, 0);
            let k: int = (b.len() + l.len()) as int;
            assert(in_order_of(t0) == b + (l + seq![z0.elem] + r) + a);
            assert(in_order_of(t0)[k] == z0.elem);
            assert(b + in_order_of(new) + a =~= in_order_of(t0).remove(k));
        }
        self.tree.replace_at(&z, new);
    }
}

/// The node with the least key of the non-empty subtree `t` (the end of the walk down its
/// left slots), detached: tagged `Top`, with both slots empty.
pub closed spec fn min_node(t: Option<Box<TreeNode<i64>>>) -> TreeNode<i64>
    decreases t,
{
    match t {
        None => arbitrary(),
        Some(n) => if n.left is None {
            TreeNode { index: Side::Top, left: None, right: None, ..*n }
        } else {
            min_node(n.left)
        },
    }
}

/// The subtree `t` once its least node has been taken out: that node's right subtree
/// takes its place.
pub closed spec fn without_min(t: Option<Box<TreeNode<i64>>>) -> Option<Box<TreeNode<i64>>>
    decreases t,
{
    match t {
        None => None,
        Some(n) => if n.left is None {
            stamped(n.right, Side::Top)
        } else {
            Some(Box::new(TreeNode { left: stamped(without_min(n.left), Side::Left), ..*n }))
        },
    }
}

/// What takes the place of the node `z` when it is deleted: its right subtree if it has
/// no left child, its left subtree if it has no right child, and otherwise its in-order
/// successor, holding both of `z`'s subtrees (the right one without the successor).
pub closed spec fn unlinked(z: TreeNode<i64>) -> Option<Box<TreeNode<i64>>> {
    if z.left is None {
        stamped(z.right, Side::Top)
    } else if z.right is None {
        stamped(z.left, Side::Top)
    } else {
        let rest = stamped(z.right, Side::Top);
        Some(Box::new(TreeNode {
            left: stamped(z.left, Side::Left),
            right: stamped(without_min(rest), Side::Right),
            ..min_node(rest)
        }))
    }
}

/// What takes the place of the detached node `zn`: its only child, or its in-order
/// successor carrying both of its subtrees.
fn unlink(zn: Box<TreeNode<i64>>) -> (new: Option<Box<TreeNode<i64>>>)
    requires
        ordered(Some(zn)),
        link_tags_ok(Some(zn)),
    ensures
        in_order_of(new) == in_order_of(zn.left_link()) + in_order_of(zn.right_link()),
        ordered(new),
        link_tags_ok(new),
        new == unlinked(*zn),
{
    let mut zn = zn;
    let ghost z0 = *zn;
    let ghost l = in_order_of(z0.left);
    let ghost r = in_order_of(z0.right);
    if zn.left.is_none() {
        let c = zn.replace_right(None);
        proof {
            lemma_stamped_orders(z0.right, Side::Top);
            lemma_stamped_ordered(z0.right, Side::Top);
            assert(l + r =~= r);
        }
        c
    } else if zn.right.is_none() {
        let c = zn.replace_left(None);
        proof {
            lemma_stamped_orders(z0.left, Side::Top);
            lemma_stamped_ordered(z0.left, Side::Top);
            assert(l + r =~= l);
        }
        c
    } else {
        let mut rest = zn.replace_right(None);
        let lft = zn.replace_left(None);
        proof {
            lemma_stamped_orders(z0.right, Side::Top);
            lemma_stamped_ordered(z0.right, Side::Top);
            lemma_stamped_orders(z0.left, Side::Top);
            lemma_stamped_ordered(z0.left, Side::Top);
            lemma_ordered_sorted(z0.right);
        }
        let ghost r0 = rest;
        let mut y = extract_min(&mut rest);
        let ghost r1 = in_order_of(rest);
        proof {
            assert(r == seq![y.elem] + r1);
            assert(r.contains(y.elem)) by {
                assert(r[0] == y.elem);
            }
            assert forall|x: i64| #[trigger] r1.contains(x) implies y.elem <= x by {
                let k = choose|k: int| 0 <= k < r1.len() && r1[k] == x;
                assert(r[k + 1] == x);
                assert(r[0] == y.elem);
                assert(r[0] <= r[k + 1]);
            }
            assert forall|x: i64| #[trigger] l.contains(x) implies x < y.elem by {
                assert(x < z0.elem);
            }
            lemma_stamped_orders(lft, Side::Left);
            lemma_stamped_ordered(lft, Side::Left);
            lemma_stamped_orders(rest, Side::Right);
            lemma_stamped_ordered(rest, Side::Right);
        }
        y.replace_left(lft);
        y.replace_right(rest);
        proof {
            assert(stamped(lft, Side::Left) == stamped(z0.left, Side::Left));
            assert(in_order_of(Some(y)) == l + seq![y.elem] + r1);
            assert(l + seq![y.elem] + r1 =~= l + r);
        }
        Some(y)
    }
}

/// The subtree found along a path of an ordered tree is ordered.
proof fn lemma_subtree_ordered(t: Option<Box<TreeNode<i64>>>, p: Seq<Side>, i: int)
    requires
        0 <= i <= p.len(),
        ordered(t),
    ensures
        ordered(subtree_from(t, p, i)),
    decreases p.len() - i,
{
    if i < p.len() {
        match t {
            Some(n) => lemma_subtree_ordered(child_of(*n, p[i]), p, i + 1),
            None => {},
        }
    }
}

/// The subtree found along a path of a tree with consistent tags has consistent tags.
proof fn lemma_subtree_tags(t: Option<Box<TreeNode<i64>>>, p: Seq<Side>, i: int)
    requires
        0 <= i <= p.len(),
        link_tags_ok(t),
    ensures
        link_tags_ok(subtree_from(t, p, i)),
    decreases p.len() - i,
{
    if i < p.len() {
        match t {
            Some(n) => lemma_subtree_tags(child_of(*n, p[i]), p, i + 1),
            None => {},
        }
    }
}

/// Takes the node with the least key out of the non-empty ordered subtree in `link`
/// (the end of the walk down its left slots); its right subtree takes its place.
/// The node comes back detached, with both slots empty.
fn extract_min(link: &mut Option<Box<TreeNode<i64>>>) -> (y: Box<TreeNode<i64>>)
    requires
        old(link).is_some(),
        ordered(*old(link)),
        link_tags_ok(*old(link)),
    ensures
        in_order_of(*old(link)) == seq![y.val()] + in_order_of(*final(link)),
        ordered(*final(link)),
        link_tags_ok(*final(link)),
        tagged(*final(link), Side::Top) || tagged(*final(link), (*old(link)).unwrap().side()),
        y.left_link() is None,
        y.right_link() is None,
        y.side() == Side::Top,
        *y == min_node(*old(link)),
        *final(link) == without_min(*old(link)),
    decreases *old(link),
{
    let mut n = link.take().unwrap();
    let ghost n0 = *n;
    if n.left.is_none() {
        let c = n.replace_right(None);
        n.index = Side::Top;
        proof {
            lemma_stamped_orders(n0.right, Side::Top);
            lemma_stamped_ordered(n0.right, Side::Top);
            assert(in_order_of(Some(Box::new(n0))) =~= seq![n0.elem] + in_order_of(c));
        }
        *link = c;
        n
    } else {
        let mut lft = n.left.take();
        let y = extract_min(&mut lft);
        proof {
            let l0 = in_order_of(n0.left);
            let l1 = in_order_of(lft);
            assert forall|x: i64| #[trigger] l1.contains(x) implies x < n0.elem by {
                let k = choose|k: int| 0 <= k < l1.len() && l1[k] == x;
                assert(l0[k + 1] == x);
                assert(l0.contains(x));
            }
        }
        n.replace_left(lft);
        proof {
            lemma_stamped_orders(lft, Side::Left);
            lemma_stamped_ordered(lft, Side::Left);
            assert(in_order_of(Some(Box::new(n0))) =~= seq![y.elem] + in_order_of(Some(n)));
        }
        *link = Some(n);
        y
    }
}

/// The subtree `t` (in a slot tagged `s`) with a new node holding `elem` in the empty
/// slot where the descent ends: left past every node whose key is greater than `elem`,
/// right past the others.
pub closed spec fn inserted(t: Option<Box<TreeNode<i64>>>, s: Side, elem: i64) -> Option<Box<TreeNode<i64>>>
    decreases t,
{
    match t {
        None => Some(Box::new(TreeNode { index: s, left: None, right: None, elem })),
        Some(n) => if elem < n.elem {
            Some(Box::new(TreeNode { left: inserted(n.left, Side::Left, elem), ..*n }))
        } else {
            Some(Box::new(TreeNode { right: inserted(n.right, Side::Right, elem), ..*n }))
        },
    }
}

/// Adds `elem` to the ordered subtree in `link`, whose slot is tagged `s`.
fn insert_link(link: &mut Option<Box<TreeNode<i64>>>, s: Side, elem: i64)
    requires
        ordered(*old(link)),
        link_tags_ok(*old(link)),
        tagged(*old(link), s),
    ensures
        ordered(*final(link)),
        link_tags_ok(*final(link)),
        tagged(*final(link), s),
        in_order_of(*final(link)).to_multiset() == in_order_of(*old(link)).to_multiset().insert(elem),
        *final(link) == inserted(*old(link), s, elem),
    decreases *old(link),
{
    match link.take() {
        None => {
            let mut n = TreeNode::new(elem);
            n.index = s;
            *link = Some(Box::new(n));
            proof {
                let l = in_order_of(*link);
                assert(l == Seq::<i64>::empty() + seq![elem] + Seq::<i64>::empty());
                assert(l =~= Seq::<i64>::empty().push(elem));
                broadcast use vstd::seq_lib::group_to_multiset_ensures;
                assert(Seq::<i64>::empty().to_multiset() =~= Multiset::empty());
            }
        },
        Some(mut n) => {
            let ghost n0 = *n;
            proof {
                lemma_multiset_commutative(in_order_of(n0.left) + seq![n0.elem], in_order_of(n0.right));
                lemma_multiset_commutative(in_order_of(n0.left), seq![n0.elem]);
            }
            if elem < n.elem {
                insert_link(&mut n.left, Side::Left, elem);
                proof {
                    assert forall|x: i64| #[trigger] in_order_of(n.left).contains(x) implies x < n.elem by {
                        to_multiset_contains(in_order_of(n.left), x);
                        to_multiset_contains(in_order_of(n0.left), x);
                    }
                    lemma_multiset_commutative(in_order_of(n.left) + seq![n.elem], in_order_of(n.right));
                    lemma_multiset_commutative(in_order_of(n.left), seq![n.elem]);
                }
            } else {
                insert_link(&mut n.right, Side::Right, elem);
                proof {
                    assert forall|x: i64| #[trigger] in_order_of(n.right).contains(x) implies n.elem <= x by {
                        to_multiset_contains(in_order_of(n.right), x);
                        to_multiset_contains(in_order_of(n0.right), x);
                    }
                    lemma_multiset_commutative(in_order_of(n.left) + seq![n.elem], in_order_of(n.right));
                    lemma_multiset_commutative(in_order_of(n.left), seq![n.elem]);
                }
            }
            *link = Some(n);
        },
    }
}

/// Deleting the only node that holds a key leaves one node fewer and no node with that
/// key: `delete` leaves `old@.remove(k)`, and `search` finds a key exactly when the
/// in-order keys contain it.
pub proof fn lemma_delete_unique(keys: Seq<i64>, k: int)
    requires
        0 <= k < keys.len(),
        keys.to_multiset().count(keys[k]) == 1,
    ensures
        keys.remove(k).len() == keys.len() - 1,
        !keys.remove(k).contains(keys[k]),
{
    vstd::seq_lib::to_multiset_remove(keys, k);
    to_multiset_contains(keys.remove(k), keys[k]);
}

} // verus!
