//! A doubly linked list whose nodes live in an arena of slots and link to each other
//! by slot index; cursors (`Anchor`) name a node by its slot.
use vstd::prelude::*;

verus! {

/// A list node: a value and the slots of its neighbours.
pub struct Node<T> {
    elem: T,
    prev: Option<usize>,
    next: Option<usize>,
}

impl<T> Node<T> {
    pub closed spec fn val(&self) -> T {
        self.elem
    }

    pub closed spec fn prev_link(&self) -> Option<usize> {
        self.prev
    }

    pub closed spec fn next_link(&self) -> Option<usize> {
        self.next
    }

    /// A node holding `elem`, linked to nothing.
    fn new(elem: T) -> (r: Node<T>)
        ensures
            r.val() == elem,
            r.prev_link() is None,
            r.next_link() is None,
    {
        Node { elem, prev: None, next: None }
    }

    /// The slot of the previous node.
    pub fn prev_raw(&self) -> (r: Option<usize>)
        ensures
            r == self.prev_link(),
    {
        self.prev
    }

    /// The slot of the next node.
    pub fn next_raw(&self) -> (r: Option<usize>)
        ensures
            r == self.next_link(),
    {
        self.next
    }

    pub fn value_ref(&self) -> (r: &T)
        ensures
            *r == self.val(),
    {
        &self.elem
    }

    pub fn value_mut(&mut self) -> (r: &mut T)
        ensures
            *r == old(self).val(),
            final(self).val() == *final(r),
            final(self).prev_link() == old(self).prev_link(),
            final(self).next_link() == old(self).next_link(),
    {
        &mut self.elem
    }

    pub fn into_value(self) -> (r: T)
        ensures
            r == self.val(),
    {
        self.elem
    }
}

impl<T: Copy> Node<T> {
    pub fn value(&self) -> (r: T)
        ensures
            r == self.val(),
    {
        self.elem
    }
}

/// A cursor into a `DoublyLinkedList`: the slot of a node. It owns nothing; the list
/// it is used with is handed to each operation.
#[derive(Clone, Copy, Debug, PartialEq, Eq, Structural)]
pub struct Anchor {
    node: usize,
}

impl View for Anchor {
    type V = usize;

    closed spec fn view(&self) -> usize {
        self.node
    }
}

/// `ids` lists each of the slots `0..n` once.
#[verifier::opaque]
pub closed spec fn ids_ok(ids: Seq<usize>, n: nat) -> bool {
    &&& ids.len() == n
    &&& ids.no_duplicates()
    &&& forall|k: int| 0 <= k < ids.len() ==> #[trigger] ids[k] < n
    &&& forall|i: int| 0 <= i < n ==> ids.contains(#[trigger] (i as usize))
}

/// Every slot holds a node.
#[verifier::opaque]
pub closed spec fn all_some<T>(sl: Seq<Option<Node<T>>>) -> bool {
    forall|i: int| 0 <= i < sl.len() ==> #[trigger] sl[i] is Some
}

/// Each node listed in `ids` links back to the one listed before it.
#[verifier::opaque]
pub closed spec fn prev_ok<T>(sl: Seq<Option<Node<T>>>, ids: Seq<usize>) -> bool {
    forall|k: int| 0 <= k < ids.len() ==> (#[trigger] sl[ids[k] as int]).unwrap().prev
        == (if k == 0 { None } else { Some(ids[k - 1]) })
}

/// Each node listed in `ids` links on to the one listed after it.
#[verifier::opaque]
pub closed spec fn next_ok<T>(sl: Seq<Option<Node<T>>>, ids: Seq<usize>) -> bool {
    forall|k: int| 0 <= k < ids.len() ==> (#[trigger] sl[ids[k] as int]).unwrap().next
        == (if k == ids.len() - 1 { None } else { Some(ids[k + 1]) })
}

/// The values of the nodes listed in `ids`, in that order.
pub closed spec fn values_of<T>(sl: Seq<Option<Node<T>>>, ids: Seq<usize>) -> Seq<T> {
    ids.map_values(|i: usize| sl[i as int].unwrap().elem)
}

impl Anchor {
    /// The cursor of the node in slot `node`.
    pub fn new(node: usize) -> (r: Anchor)
        ensures
            r@ == node,
    {
        Anchor { node }
    }

    /// The slot of the node.
    pub fn raw(&self) -> (r: usize)
        ensures
            r == self@,
    {
        self.node
    }

    /// This cursor names no node of `list`.
    pub fn is_dangling<T>(&self, list: &DoublyLinkedList<T>) -> (r: bool)
        requires
            list.wf(),
        ensures
            r == !list.holds(*self),
    {
        proof {
            reveal(ids_ok);
            if self.node < list.slots.len() {
                assert(list.ids@.contains((self.node as int) as usize));
            }
            if list.holds(*self) {
                let k = choose|k: int| 0 <= k < list.ids@.len() && list.ids@[k] == self.node;
                assert(list.ids@[k] < list.slots.len());
            }
        }
        self.node >= list.slots.len()
    }

    /// This cursor names the head of `list`.
    pub fn is_head<T>(&self, list: &DoublyLinkedList<T>) -> (r: bool)
        requires
            list.wf(),
        ensures
            r == (list.holds(*self) && list.position(*self) == 0),
    {
        if self.is_dangling(list) {
            false
        } else {
            proof {
                list.lemma_position(*self);
                list.lemma_slot(*self);
            }
            list.slots[self.node].as_ref().unwrap().prev.is_none()
        }
    }

    /// This cursor names the tail of `list`.
    pub fn is_tail<T>(&self, list: &DoublyLinkedList<T>) -> (r: bool)
        requires
            list.wf(),
        ensures
            r == (list.holds(*self) && list.position(*self) == list@.len() - 1),
    {
        if self.is_dangling(list) {
            false
        } else {
            proof {
                list.lemma_position(*self);
                list.lemma_slot(*self);
            }
            list.slots[self.node].as_ref().unwrap().next.is_none()
        }
    }

    /// The cursor of the next node, unless this one names the tail.
    pub fn next<T>(&self, list: &DoublyLinkedList<T>) -> (r: Option<Anchor>)
        requires
            list.wf(),
            list.holds(*self),
        ensures
            r is None == (list.position(*self) == list@.len() - 1),
            r is Some ==> list.holds(r.unwrap()) && list.position(r.unwrap()) == list.position(*self) + 1,
            r is Some ==> r.unwrap()@ == list.ids()[list.position(*self) + 1],
    {
        proof {
            list.lemma_position(*self);
        }
        match list.get(*self).next {
            Some(i) => {
                let a = Anchor { node: i };
                proof {
                    list.lemma_position(a);
                }
                Some(a)
            },
            None => None,
        }
    }

    /// The cursor of the previous node, unless this one names the head.
    pub fn prev<T>(&self, list: &DoublyLinkedList<T>) -> (r: Option<Anchor>)
        requires
            list.wf(),
            list.holds(*self),
        ensures
            r is None == (list.position(*self) == 0),
            r is Some ==> list.holds(r.unwrap()) && list.position(r.unwrap()) == list.position(*self) - 1,
            r is Some ==> r.unwrap()@ == list.ids()[list.position(*self) - 1],
    {
        proof {
            list.lemma_position(*self);
        }
        match list.get(*self).prev {
            Some(i) => {
                let a = Anchor { node: i };
                proof {
                    list.lemma_position(a);
                }
                Some(a)
            },
            None => None,
        }
    }

    /// Takes the node this cursor names out of `list` and hands it back, linked to
    /// nothing. The node in the list's last slot moves into the freed slot: cursors of
    /// the other nodes keep naming them, but that one's slot is now `self@`.
    pub fn detach<T>(self, list: &mut DoublyLinkedList<T>) -> (r: Node<T>)
        requires
            old(list).wf(),
            old(list).holds(self),
        ensures
            final(list).wf(),
            final(list)@ == old(list)@.remove(old(list).position(self)),
            final(list).ids() == relabel(
                old(list).ids().remove(old(list).position(self)),
                (old(list)@.len() - 1) as usize,
                self@,
            ),
            r.val() == old(list)@[old(list).position(self)],
            r.prev_link() is None,
            r.next_link() is None,
    {
        proof {
            list.lemma_position(self);
            list.lemma_slot(self);
        }
        let ghost k = list.position(self);
        let ghost last = (list@.len() - 1) as usize;
        let r = list.remove_slot(self.node, Ghost(k));
        proof {
            if self.node == last {
                let ids1 = old(list).ids().remove(k);
                assert(relabel(ids1, last, self@) =~= ids1);
            }
        }
        r
    }

    /// Takes the node this cursor names out of `list` and drops it.
    pub fn delete<T>(self, list: &mut DoublyLinkedList<T>)
        requires
            old(list).wf(),
            old(list).holds(self),
        ensures
            final(list).wf(),
            final(list)@ == old(list)@.remove(old(list).position(self)),
    {
        self.detach(list);
    }

    /// Adds `elem` just before the node this cursor names and returns its cursor.
    pub fn insert_before<T>(&self, list: &mut DoublyLinkedList<T>, elem: T) -> (r: Anchor)
        requires
            old(list).wf(),
            old(list).holds(*self),
            old(list)@.len() < usize::MAX,
        ensures
            final(list).wf(),
            final(list)@ == old(list)@.insert(old(list).position(*self), elem),
            final(list).holds(r) && final(list).position(r) == old(list).position(*self),
            final(list).holds(*self) && final(list).position(*self) == old(list).position(*self) + 1,
    {
        let ghost k = list.position(*self);
        proof {
            list.lemma_position(*self);
        }
        let prev = list.get(*self).prev;
        let i = list.insert_between(prev, Some(self.node), elem, Ghost(k));
        let r = Anchor { node: i };
        proof {
            old(list).ids().insert_ensures(k, i);
            assert(list.ids()[k] == i);
            assert(list.ids()[k + 1] == self.node);
            list.lemma_position(r);
            list.lemma_position(*self);
        }
        r
    }

    /// Adds `elem` just after the node this cursor names and returns its cursor.
    pub fn insert_after<T>(&self, list: &mut DoublyLinkedList<T>, elem: T) -> (r: Anchor)
        requires
            old(list).wf(),
            old(list).holds(*self),
            old(list)@.len() < usize::MAX,
        ensures
            final(list).wf(),
            final(list)@ == old(list)@.insert(old(list).position(*self) + 1, elem),
            final(list).holds(r) && final(list).position(r) == old(list).position(*self) + 1,
            final(list).holds(*self) && final(list).position(*self) == old(list).position(*self),
    {
        let ghost k = list.position(*self);
        proof {
            list.lemma_position(*self);
        }
        let next = list.get(*self).next;
        let i = list.insert_between(Some(self.node), next, elem, Ghost(k + 1));
        let r = Anchor { node: i };
        proof {
            old(list).ids().insert_ensures(k + 1, i);
            assert(list.ids()[k + 1] == i);
            assert(list.ids()[k] == self.node);
            list.lemma_position(r);
            list.lemma_position(*self);
        }
        r
    }
}

/// A doubly linked list. Its nodes sit in `slots`; `ids` lists the slots of the nodes
/// from head to tail.
pub struct DoublyLinkedList<T> {
    slots: Vec<Option<Node<T>>>,
    head: Option<usize>,
    tail: Option<usize>,
    len: usize,
    ids: Ghost<Seq<usize>>,
}

impl<T> View for DoublyLinkedList<T> {
    type V = Seq<T>;

    /// The values from head to tail.
    closed spec fn view(&self) -> Seq<T> {
        values_of(self.slots@, self.ids@)
    }
}

impl<T> DoublyLinkedList<T> {
    /// The slots of the nodes, from head to tail.
    pub closed spec fn ids(&self) -> Seq<usize> {
        self.ids@
    }

    /// The node in slot `i`.
    pub closed spec fn node_at(&self, i: usize) -> Node<T> {
        self.slots@[i as int].unwrap()
    }

    /// Where the node that `a` names stands, counting from the head.
    pub open spec fn position(&self, a: Anchor) -> int {
        self.ids().index_of(a@)
    }

    /// `a` names a node of this list.
    pub open spec fn holds(&self, a: Anchor) -> bool {
        self.ids().contains(a@)
    }

    /// The links agree with the order of `ids`, and the slots are exactly the nodes of
    /// the list: every slot holds a node and `ids` lists each slot once.
    pub closed spec fn wf(&self) -> bool {
        let ids = self.ids@;
        &&& self.len == ids.len()
        &&& self.slots.len() == ids.len()
        &&& ids_ok(ids, self.slots.len() as nat)
        &&& all_some(self.slots@)
        &&& prev_ok(self.slots@, ids)
        &&& next_ok(self.slots@, ids)
        &&& self.head == (if ids.len() == 0 { None } else { Some(ids[0]) })
        &&& self.tail == (if ids.len() == 0 { None } else { Some(ids.last()) })
    }

    pub fn new() -> (r: DoublyLinkedList<T>)
        ensures
            r.wf(),
            r@ == Seq::<T>::empty(),
    {
        let r = DoublyLinkedList { slots: Vec::new(), head: None, tail: None, len: 0, ids: Ghost(Seq::empty()) };
        proof {
            reveal(ids_ok);
            reveal(all_some);
            reveal(prev_ok);
            reveal(next_ok);
            assert(r@ =~= Seq::<T>::empty());
        }
        r
    }

    pub fn len(&self) -> (r: usize)
        requires
            self.wf(),
        ensures
            r == self@.len(),
    {
        self.len
    }

    pub fn is_empty(&self) -> (r: bool)
        requires
            self.wf(),
        ensures
            r == (self@.len() == 0),
    {
        self.len == 0
    }
}

impl<T> DoublyLinkedList<T> {
    /// Sets the previous-node link of the node in slot `i`.
    fn set_prev(&mut self, i: usize, p: Option<usize>)
        requires
            i < old(self).slots.len(),
            old(self).slots@[i as int] is Some,
        ensures
            final(self).slots@ == old(self).slots@.update(
                i as int,
                Some(Node { prev: p, ..old(self).slots@[i as int].unwrap() }),
            ),
            final(self).head == old(self).head,
            final(self).tail == old(self).tail,
            final(self).len == old(self).len,
            final(self).ids == old(self).ids,
    {
        let mut n = self.slots[i].take().unwrap();
        n.prev = p;
        self.slots.set(i, Some(n));
    }

    /// Sets the next-node link of the node in slot `i`.
    fn set_next(&mut self, i: usize, x: Option<usize>)
        requires
            i < old(self).slots.len(),
            old(self).slots@[i as int] is Some,
        ensures
            final(self).slots@ == old(self).slots@.update(
                i as int,
                Some(Node { next: x, ..old(self).slots@[i as int].unwrap() }),
            ),
            final(self).head == old(self).head,
            final(self).tail == old(self).tail,
            final(self).len == old(self).len,
            final(self).ids == old(self).ids,
    {
        let mut n = self.slots[i].take().unwrap();
        n.next = x;
        self.slots.set(i, Some(n));
    }

    /// Links a new node holding `elem` in between the nodes in slots `prev` and `next`,
    /// which stand at positions `k - 1` and `k` (`None` past either end), and returns
    /// the new node's slot.
    fn insert_between(&mut self, prev: Option<usize>, next: Option<usize>, elem: T, Ghost(k): Ghost<int>) -> (r: usize)
        requires
            old(self).wf(),
            old(self)@.len() < usize::MAX,
            0 <= k <= old(self).ids().len(),
            prev == (if k == 0 { None } else { Some(old(self).ids()[k - 1]) }),
            next == (if k == old(self).ids().len() { None } else { Some(old(self).ids()[k]) }),
        ensures
            final(self).wf(),
            final(self).ids() == old(self).ids().insert(k, r),
            final(self)@ == old(self)@.insert(k, elem),
            !old(self).ids().contains(r),
    {
        let ghost ids0 = self.ids@;
        let ghost sl0 = self.slots@;
        let i = self.slots.len();
        let mut node = Node::new(elem);
        node.prev = prev;
        node.next = next;
        self.slots.push(Some(node));
        proof {
            reveal(all_some);
            reveal(ids_ok);
        }
        match prev {
            Some(p) => self.set_next(p, Some(i)),
            None => self.head = Some(i),
        }
        match next {
            Some(n) => self.set_prev(n, Some(i)),
            None => self.tail = Some(i),
        }
        self.len = self.len + 1;
        self.ids = Ghost(ids0.insert(k, i));
        proof {
            let sl1 = self.slots@;
            assert(sl1.len() == sl0.len() + 1);
            assert(sl1[i as int] == Some(Node { elem, prev, next }));
            assert forall|x: int| 0 <= x < sl0.len() implies {
                &&& #[trigger] sl1[x] is Some
                &&& sl1[x].unwrap().elem == sl0[x].unwrap().elem
                &&& sl1[x].unwrap().prev == (if k < ids0.len() && x == ids0[k] { Some(i) } else { sl0[x].unwrap().prev })
                &&& sl1[x].unwrap().next == (if k > 0 && x == ids0[k - 1] { Some(i) } else { sl0[x].unwrap().next })
            } by {}
            lemma_insert_ids(ids0, k, i);
            lemma_insert_links(sl0, sl1, ids0, k, i, elem);
            ids0.insert_ensures(k, i);
        }
        i
    }
}

impl<T> DoublyLinkedList<T> {
    /// Links the node in slot `i` (at position `k`) out of the list and hands it back,
    /// linked to nothing. The node in the last slot moves into slot `i`, so the slots
    /// stay packed.
    fn remove_slot(&mut self, i: usize, Ghost(k): Ghost<int>) -> (r: Node<T>)
        requires
            old(self).wf(),
            0 <= k < old(self).ids().len(),
            old(self).ids()[k] == i,
        ensures
            final(self).wf(),
            final(self)@ == old(self)@.remove(k),
            r.val() == old(self)@[k],
            r.prev_link() is None,
            r.next_link() is None,
            i == old(self).slots.len() - 1 ==> final(self).ids() == old(self).ids().remove(k),
            i != old(self).slots.len() - 1 ==> final(self).ids() == relabel(
                old(self).ids().remove(k),
                (old(self).slots.len() - 1) as usize,
                i,
            ),
    {
        let ghost ids0 = self.ids@;
        proof {
            lemma_node_links(self.slots@, ids0, k);
        }
        self.unlink_slot(i, Ghost(k));
        let ghost ids1 = ids0.remove(k);
        proof {
            lemma_removed_ids(ids0, self.slots@.len(), k);
        }
        self.reclaim_slot(i, Ghost(ids1))
    }

    /// Points the neighbours of the node in slot `i` (at position `k`) at each other,
    /// leaving the node itself in its slot.
    fn unlink_slot(&mut self, i: usize, Ghost(k): Ghost<int>)
        requires
            old(self).wf(),
            0 <= k < old(self).ids().len(),
            old(self).ids()[k] == i,
            i < old(self).slots.len(),
        ensures
            final(self).slots.len() == old(self).slots.len(),
            final(self).slots@[i as int] == old(self).slots@[i as int],
            final(self).ids == old(self).ids,
            final(self).len == old(self).len,
            all_some(final(self).slots@),
            prev_ok(final(self).slots@, old(self).ids().remove(k)),
            next_ok(final(self).slots@, old(self).ids().remove(k)),
            values_of(final(self).slots@, old(self).ids().remove(k)) == old(self)@.remove(k),
            final(self).head == (if old(self).ids().len() == 1 { None } else { Some(old(self).ids().remove(k)[0]) }),
            final(self).tail == (if old(self).ids().len() == 1 { None } else { Some(old(self).ids().remove(k).last()) }),
    {
        let ghost ids0 = self.ids@;
        let ghost sl0 = self.slots@;
        proof {
            lemma_node_links(sl0, ids0, k);
            if k > 0 {
                lemma_node_links(sl0, ids0, k - 1);
            }
            if k + 1 < ids0.len() {
                lemma_node_links(sl0, ids0, k + 1);
            }
        }
        let p = self.slots[i].as_ref().unwrap().prev;
        let n = self.slots[i].as_ref().unwrap().next;
        match p {
            Some(pp) => self.set_next(pp, n),
            None => self.head = n,
        }
        match n {
            Some(nn) => self.set_prev(nn, p),
            None => self.tail = p,
        }
        proof {
            let sl1 = self.slots@;
            reveal(all_some);
            ids0.remove_ensures(k);
            assert forall|x: int| 0 <= x < sl0.len() implies {
                &&& #[trigger] sl1[x] is Some
                &&& sl1[x].unwrap().elem == sl0[x].unwrap().elem
                &&& sl1[x].unwrap().prev == (if k + 1 < ids0.len() && x == ids0[k + 1] {
                    sl0[ids0[k] as int].unwrap().prev
                } else {
                    sl0[x].unwrap().prev
                })
                &&& sl1[x].unwrap().next == (if k > 0 && x == ids0[k - 1] {
                    sl0[ids0[k] as int].unwrap().next
                } else {
                    sl0[x].unwrap().next
                })
            } by {}
            lemma_unlink_links(sl0, sl1, ids0, k);
        }
    }

    /// Takes the unlinked node out of slot `i` and moves the node in the last slot there;
    /// `ids1` lists the nodes still linked.
    fn reclaim_slot(&mut self, i: usize, Ghost(ids1): Ghost<Seq<usize>>) -> (r: Node<T>)
        requires
            i < old(self).slots.len(),
            old(self).len == old(self).slots.len(),
            ids1.len() == old(self).slots.len() - 1,
            ids1.no_duplicates(),
            forall|j: int| 0 <= j < ids1.len() ==> #[trigger] ids1[j] < old(self).slots.len() && ids1[j] != i,
            forall|x: int| 0 <= x < old(self).slots.len() && x != i ==> ids1.contains(#[trigger] (x as usize)),
            all_some(old(self).slots@),
            prev_ok(old(self).slots@, ids1),
            next_ok(old(self).slots@, ids1),
            old(self).head == (if ids1.len() == 0 { None } else { Some(ids1[0]) }),
            old(self).tail == (if ids1.len() == 0 { None } else { Some(ids1.last()) }),
        ensures
            final(self).wf(),
            final(self)@ == values_of(old(self).slots@, ids1),
            r.val() == old(self).slots@[i as int].unwrap().val(),
            r.prev_link() is None,
            r.next_link() is None,
            i == old(self).slots.len() - 1 ==> final(self).ids() == ids1,
            i != old(self).slots.len() - 1 ==> final(self).ids() == relabel(ids1, (old(self).slots.len() - 1) as usize, i),
    {
        let ghost sl1 = self.slots@;
        proof {
            reveal(all_some);
        }
        let last = self.slots.len() - 1;
        let removed = self.slots.swap_remove(i);
        if i != last {
            let pm = self.slots[i].as_ref().unwrap().prev;
            let nm = self.slots[i].as_ref().unwrap().next;
            let ghost h1 = self.head;
            let ghost t1 = self.tail;
            let ghost sl1b = self.slots@;
            proof {
                lemma_last_neighbours(sl1, ids1, i);
            }
            match pm {
                Some(x) => self.set_next(x, Some(i)),
                None => self.head = Some(i),
            }
            match nm {
                Some(x) => self.set_prev(x, Some(i)),
                None => self.tail = Some(i),
            }
            proof {
                let sl2 = self.slots@;
                assert forall|x: int| 0 <= x < sl2.len() && x != i implies {
                    &&& #[trigger] sl2[x] is Some
                    &&& sl2[x].unwrap().elem == sl1[x].unwrap().elem
                    &&& sl2[x].unwrap().prev == (if sl1[sl1.len() - 1].unwrap().next == Some(x as usize) {
                        Some(i)
                    } else {
                        sl1[x].unwrap().prev
                    })
                    &&& sl2[x].unwrap().next == (if sl1[sl1.len() - 1].unwrap().prev == Some(x as usize) {
                        Some(i)
                    } else {
                        sl1[x].unwrap().next
                    })
                } by {
                    assert(sl1b[x] == sl1[x]);
                }
                lemma_move_links(sl1, sl2, ids1, i, h1, t1);
            }
            self.ids = Ghost(relabel(ids1, last, i));
        } else {
            proof {
                assert(self.slots@ =~= sl1.drop_last());
                lemma_drop_last_slot(sl1, self.slots@, ids1);
            }
            self.ids = Ghost(ids1);
        }
        self.len = self.len - 1;
        let mut node = removed.unwrap();
        node.prev = None;
        node.next = None;
        node
    }
}

impl<T> DoublyLinkedList<T> {
    /// Where `a` stands, and what its node links to.
    pub proof fn lemma_position(&self, a: Anchor)
        requires
            self.wf(),
            self.holds(a),
        ensures
            0 <= self.position(a) < self@.len(),
            self.ids()[self.position(a)] == a@,
            forall|k: int| 0 <= k < self.ids().len() && self.ids()[k] == a@ ==> k == self.position(a),
            self.node_at(a@).prev_link() == (if self.position(a) == 0 {
                None
            } else {
                Some(self.ids()[self.position(a) - 1])
            }),
            self.node_at(a@).next_link() == (if self.position(a) == self@.len() - 1 {
                None
            } else {
                Some(self.ids()[self.position(a) + 1])
            }),
            self.node_at(a@).val() == self@[self.position(a)],
    {
        reveal(ids_ok);
        let k = self.position(a);
        lemma_node_links(self.slots@, self.ids@, k);
    }

    /// The node that `a` names sits in a slot of the arena.
    proof fn lemma_slot(&self, a: Anchor)
        requires
            self.wf(),
            self.holds(a),
        ensures
            a@ < self.slots.len(),
            self.slots@[a@ as int] is Some,
    {
        reveal(ids_ok);
        reveal(all_some);
        let k = self.position(a);
        assert(self.ids@[k] < self.slots.len());
    }

    /// The slot of the head node.
    pub fn head_raw(&self) -> (r: Option<usize>)
        requires
            self.wf(),
        ensures
            r == (if self@.len() == 0 { None } else { Some(self.ids()[0]) }),
    {
        self.head
    }

    /// The slot of the tail node.
    pub fn tail_raw(&self) -> (r: Option<usize>)
        requires
            self.wf(),
        ensures
            r == (if self@.len() == 0 { None } else { Some(self.ids().last()) }),
    {
        self.tail
    }

    /// The cursor of the head node, unless the list is empty.
    pub fn head(&self) -> (r: Option<Anchor>)
        requires
            self.wf(),
        ensures
            r is Some == (self@.len() > 0),
            r is Some ==> self.holds(r.unwrap()) && self.position(r.unwrap()) == 0,
    {
        match self.head {
            Some(i) => {
                let a = Anchor { node: i };
                proof {
                    assert(self.ids()[0] == i);
                    self.lemma_position(a);
                }
                Some(a)
            },
            None => None,
        }
    }

    /// The cursor of the tail node, unless the list is empty.
    pub fn tail(&self) -> (r: Option<Anchor>)
        requires
            self.wf(),
        ensures
            r is Some == (self@.len() > 0),
            r is Some ==> self.holds(r.unwrap()) && self.position(r.unwrap()) == self@.len() - 1,
    {
        match self.tail {
            Some(i) => {
                let a = Anchor { node: i };
                proof {
                    assert(self.ids()[self.ids().len() - 1] == i);
                    self.lemma_position(a);
                }
                Some(a)
            },
            None => None,
        }
    }

    /// The node that `a` names.
    pub fn get(&self, a: Anchor) -> (r: &Node<T>)
        requires
            self.wf(),
            self.holds(a),
        ensures
            *r == self.node_at(a@),
            r.val() == self@[self.position(a)],
    {
        proof {
            self.lemma_position(a);
            self.lemma_slot(a);
        }
        self.slots[a.node].as_ref().unwrap()
    }

    /// Adds `elem` in front of the head and returns its cursor.
    pub fn insert_front(&mut self, elem: T) -> (r: Anchor)
        requires
            old(self).wf(),
            old(self)@.len() < usize::MAX,
        ensures
            final(self).wf(),
            final(self)@ == old(self)@.insert(0, elem),
            final(self).holds(r) && final(self).position(r) == 0,
    {
        let next = self.head;
        let i = self.insert_between(None, next, elem, Ghost(0));
        let r = Anchor { node: i };
        proof {
            assert(self.ids()[0] == i);
            self.lemma_position(r);
        }
        r
    }

    /// Adds `elem` behind the tail and returns its cursor.
    pub fn insert_back(&mut self, elem: T) -> (r: Anchor)
        requires
            old(self).wf(),
            old(self)@.len() < usize::MAX,
        ensures
            final(self).wf(),
            final(self)@ == old(self)@.push(elem),
            final(self).holds(r) && final(self).position(r) == old(self)@.len(),
    {
        let ghost n = self.ids@.len();
        let prev = self.tail;
        let i = self.insert_between(prev, None, elem, Ghost(n as int));
        let r = Anchor { node: i };
        proof {
            assert(self.ids()[n as int] == i);
            self.lemma_position(r);
            assert(old(self)@.insert(n as int, elem) =~= old(self)@.push(elem));
        }
        r
    }

    /// Takes the head node out of the list, or `None` if the list is empty.
    pub fn detach_front(&mut self) -> (r: Option<Node<T>>)
        requires
            old(self).wf(),
        ensures
            final(self).wf(),
            r is None == (old(self)@.len() == 0),
            r is Some ==> r.unwrap().val() == old(self)@[0] && final(self)@ == old(self)@.drop_first(),
            r is None ==> final(self)@ == old(self)@,
    {
        match self.head() {
            Some(a) => {
                let n = a.detach(self);
                proof {
                    assert(old(self)@.remove(0) =~= old(self)@.drop_first());
                }
                Some(n)
            },
            None => None,
        }
    }

    /// Takes the tail node out of the list, or `None` if the list is empty.
    pub fn detach_back(&mut self) -> (r: Option<Node<T>>)
        requires
            old(self).wf(),
        ensures
            final(self).wf(),
            r is None == (old(self)@.len() == 0),
            r is Some ==> r.unwrap().val() == old(self)@.last() && final(self)@ == old(self)@.drop_last(),
            r is None ==> final(self)@ == old(self)@,
    {
        match self.tail() {
            Some(a) => {
                let n = a.detach(self);
                proof {
                    assert(old(self)@.remove(old(self)@.len() - 1) =~= old(self)@.drop_last());
                }
                Some(n)
            },
            None => None,
        }
    }

    /// The value at the head, if any.
    pub fn front_ref(&self) -> (r: Option<&T>)
        requires
            self.wf(),
        ensures
            r is Some == (self@.len() > 0),
            r is Some ==> *r.unwrap() == self@[0],
    {
        match self.head() {
            Some(a) => Some(self.get(a).value_ref()),
            None => None,
        }
    }

    /// The value at the tail, if any.
    pub fn back_ref(&self) -> (r: Option<&T>)
        requires
            self.wf(),
        ensures
            r is Some == (self@.len() > 0),
            r is Some ==> *r.unwrap() == self@.last(),
    {
        match self.tail() {
            Some(a) => Some(self.get(a).value_ref()),
            None => None,
        }
    }
}

impl<T> DoublyLinkedList<T> {
    /// The value of the node that `a` names, to change in place.
    fn elem_mut(&mut self, a: Anchor) -> (r: &mut T)
        requires
            old(self).wf(),
            old(self).holds(a),
        ensures
            *r == old(self)@[old(self).position(a)],
            final(self).wf(),
            final(self).ids() == old(self).ids(),
            final(self)@ == old(self)@.update(old(self).position(a), *final(r)),
    {
        proof {
            self.lemma_position(a);
            self.lemma_slot(a);
            lemma_set_elem(self.slots@, self.ids@, a@, self.position(a));
        }
        let ghost n0 = self.slots@[a@ as int].unwrap();
        let slot = &mut self.slots[a.node];
        let node = slot.as_mut().unwrap();
        let e = &mut node.elem;
        proof {
            assert(with_elem(n0, *final(e)) == Node { elem: *final(e), ..n0 });
        }
        e
    }

    /// The value at the head, to change in place, if any.
    pub fn front_mut(&mut self) -> (r: Option<&mut T>)
        requires
            old(self).wf(),
        ensures
            r is Some == (old(self)@.len() > 0),
            r is Some ==> *r.unwrap() == old(self)@[0],
            r is Some ==> final(self).wf() && final(self)@ == old(self)@.update(0, *final(r.unwrap())),
            r is None ==> *final(self) == *old(self),
    {
        match self.head() {
            Some(a) => Some(self.elem_mut(a)),
            None => None,
        }
    }

    /// The value at the tail, to change in place, if any.
    pub fn back_mut(&mut self) -> (r: Option<&mut T>)
        requires
            old(self).wf(),
        ensures
            r is Some == (old(self)@.len() > 0),
            r is Some ==> *r.unwrap() == old(self)@.last(),
            r is Some ==> final(self).wf() && final(self)@ == old(self)@.update(
                old(self)@.len() - 1,
                *final(r.unwrap()),
            ),
            r is None ==> *final(self) == *old(self),
    {
        match self.tail() {
            Some(a) => Some(self.elem_mut(a)),
            None => None,
        }
    }
}

/// The node `n` holding `v` in place of its value.
pub closed spec fn with_elem<T>(n: Node<T>, v: T) -> Node<T> {
    Node { elem: v, ..n }
}

/// Changing the value of the node in slot `i` (at position `k`) keeps every link, and
/// changes the listed values only at `k`.
proof fn lemma_set_elem<T>(sl: Seq<Option<Node<T>>>, ids: Seq<usize>, i: usize, k: int)
    requires
        ids_ok(ids, sl.len()),
        all_some(sl),
        prev_ok(sl, ids),
        next_ok(sl, ids),
        0 <= k < ids.len(),
        ids[k] == i,
    ensures
        forall|v: T| {
            let sl2 = sl.update(i as int, Some(#[trigger] with_elem(sl[i as int].unwrap(), v)));
            &&& all_some(sl2)
            &&& prev_ok(sl2, ids)
            &&& next_ok(sl2, ids)
            &&& values_of(sl2, ids) == values_of(sl, ids).update(k, v)
        },
{
    reveal(ids_ok);
    reveal(all_some);
    reveal(prev_ok);
    reveal(next_ok);
    assert forall|v: T| {
        let sl2 = sl.update(i as int, Some(#[trigger] with_elem(sl[i as int].unwrap(), v)));
        &&& all_some(sl2)
        &&& prev_ok(sl2, ids)
        &&& next_ok(sl2, ids)
        &&& values_of(sl2, ids) == values_of(sl, ids).update(k, v)
    } by {
        let sl2 = sl.update(i as int, Some(with_elem(sl[i as int].unwrap(), v)));
        assert forall|j: int| 0 <= j < ids.len() implies #[trigger] values_of(sl2, ids)[j] == values_of(sl, ids).update(k, v)[j] by {
            if j != k {
                assert(ids[j] != ids[k]);
            }
        }
        assert(values_of(sl2, ids) =~= values_of(sl, ids).update(k, v));
    }
}

/// Which way an iterator walks.
#[derive(Clone, Copy, PartialEq, Eq, Structural)]
enum IteratorDirection {
    /// From the head towards the tail.
    Forward,
    /// From the tail towards the head.
    Backward,
}

/// Walks the cursors of a list, one node at a time, from one end to the other.
pub struct DoublyLinkedListIterator<'a, T> {
    list: &'a DoublyLinkedList<T>,
    anchor: Option<Anchor>,
    direction: IteratorDirection,
}

impl<'a, T> DoublyLinkedListIterator<'a, T> {
    /// The list walked.
    pub closed spec fn walked(&self) -> DoublyLinkedList<T> {
        *self.list
    }

    /// The cursor that `next` hands out next, if any.
    pub closed spec fn upcoming(&self) -> Option<Anchor> {
        self.anchor
    }

    /// The iterator walks from the head towards the tail.
    pub closed spec fn forward(&self) -> bool {
        self.direction == IteratorDirection::Forward
    }

    /// The list is well formed and the upcoming cursor names one of its nodes.
    pub closed spec fn wf(&self) -> bool {
        self.list.wf() && (self.anchor is Some ==> self.list.holds(self.anchor.unwrap()))
    }

    /// How many cursors are left to hand out.
    pub closed spec fn remaining(&self) -> nat {
        match self.anchor {
            None => 0,
            Some(a) => if self.direction == IteratorDirection::Forward {
                (self.list@.len() - self.list.position(a)) as nat
            } else {
                (self.list.position(a) + 1) as nat
            },
        }
    }

    fn new(lst: &'a DoublyLinkedList<T>, direction: IteratorDirection) -> (r: DoublyLinkedListIterator<'a, T>)
        requires
            lst.wf(),
        ensures
            r.wf(),
            r.walked() == *lst,
            r.forward() == (direction == IteratorDirection::Forward),
            r.remaining() == lst@.len(),
            r.upcoming() is Some ==> lst.position(r.upcoming().unwrap()) == (if direction == IteratorDirection::Forward {
                0
            } else {
                lst@.len() - 1
            }),
    {
        let anchor = match direction {
            IteratorDirection::Forward => lst.head(),
            IteratorDirection::Backward => lst.tail(),
        };
        DoublyLinkedListIterator { list: lst, anchor, direction }
    }

    /// Hands out the upcoming cursor and steps past it; `None` once the walk is over.
    pub fn next(&mut self) -> (r: Option<Anchor>)
        requires
            old(self).wf(),
        ensures
            final(self).wf(),
            r == old(self).upcoming(),
            final(self).walked() == old(self).walked(),
            final(self).forward() == old(self).forward(),
            r is None ==> final(self).remaining() == 0,
            r is Some ==> final(self).remaining() == old(self).remaining() - 1,
            r is Some && final(self).upcoming() is Some ==> final(self).walked().position(
                final(self).upcoming().unwrap(),
            ) == old(self).walked().position(r.unwrap()) + (if old(self).forward() {
                1int
            } else {
                -1int
            }),
    {
        let current = self.anchor;
        match current {
            Some(a) => {
                proof {
                    self.list.lemma_position(a);
                }
                self.anchor = match self.direction {
                    IteratorDirection::Forward => a.next(self.list),
                    IteratorDirection::Backward => a.prev(self.list),
                };
            },
            None => {},
        }
        current
    }
}

impl<T> DoublyLinkedList<T> {
    /// An iterator over the cursors from the head to the tail.
    pub fn iter(&self) -> (r: DoublyLinkedListIterator<'_, T>)
        requires
            self.wf(),
        ensures
            r.wf(),
            r.walked() == *self,
            r.forward(),
            r.remaining() == self@.len(),
            r.upcoming() is Some ==> self.position(r.upcoming().unwrap()) == 0,
    {
        DoublyLinkedListIterator::new(self, IteratorDirection::Forward)
    }

    /// An iterator over the cursors from the tail to the head.
    pub fn iter_rev(&self) -> (r: DoublyLinkedListIterator<'_, T>)
        requires
            self.wf(),
        ensures
            r.wf(),
            r.walked() == *self,
            !r.forward(),
            r.remaining() == self@.len(),
            r.upcoming() is Some ==> self.position(r.upcoming().unwrap()) == self@.len() - 1,
    {
        DoublyLinkedListIterator::new(self, IteratorDirection::Backward)
    }
}

/// What the invariant says of the node at position `k`.
proof fn lemma_node_links<T>(sl: Seq<Option<Node<T>>>, ids: Seq<usize>, k: int)
    requires
        ids_ok(ids, sl.len()),
        all_some(sl),
        prev_ok(sl, ids),
        next_ok(sl, ids),
        0 <= k < ids.len(),
    ensures
        ids[k] < sl.len(),
        sl[ids[k] as int] is Some,
        sl[ids[k] as int].unwrap().prev == (if k == 0 { None } else { Some(ids[k - 1]) }),
        sl[ids[k] as int].unwrap().next == (if k == ids.len() - 1 { None } else { Some(ids[k + 1]) }),
        k > 0 ==> ids[k - 1] != ids[k],
        k + 1 < ids.len() ==> ids[k + 1] != ids[k],
        k > 0 && k + 1 < ids.len() ==> ids[k - 1] != ids[k + 1],
{
    reveal(ids_ok);
    reveal(all_some);
    reveal(prev_ok);
    reveal(next_ok);
}

/// The neighbours of the node in the last slot are neither that slot nor slot `i`.
proof fn lemma_last_neighbours<T>(sl1: Seq<Option<Node<T>>>, ids1: Seq<usize>, i: usize)
    requires
        1 <= sl1.len() <= usize::MAX,
        i < sl1.len() - 1,
        ids1.len() == sl1.len() - 1,
        ids1.no_duplicates(),
        forall|j: int| 0 <= j < ids1.len() ==> #[trigger] ids1[j] < sl1.len() && ids1[j] != i,
        forall|x: int| 0 <= x < sl1.len() && x != i ==> ids1.contains(#[trigger] (x as usize)),
        all_some(sl1),
        prev_ok(sl1, ids1),
        next_ok(sl1, ids1),
    ensures
        ({
            let n = sl1[sl1.len() - 1].unwrap();
            &&& n.prev is Some ==> n.prev.unwrap() < sl1.len() - 1 && n.prev.unwrap() != i
            &&& n.next is Some ==> n.next.unwrap() < sl1.len() - 1 && n.next.unwrap() != i
            &&& n.prev is Some && n.next is Some ==> n.prev != n.next
        }),
{
    reveal(prev_ok);
    reveal(next_ok);
    let last = (sl1.len() - 1) as usize;
    assert(ids1.contains(last));
    let jl = choose|j: int| 0 <= j < ids1.len() && ids1[j] == last;
    assert(sl1[last as int].unwrap().prev == (if jl == 0 { None } else { Some(ids1[jl - 1]) }));
    assert(sl1[last as int].unwrap().next == (if jl == ids1.len() - 1 { None } else { Some(ids1[jl + 1]) }));
    if jl > 0 {
        assert(ids1[jl - 1] != last);
    }
    if jl < ids1.len() - 1 {
        assert(ids1[jl + 1] != last);
    }
}

/// Dropping the unlinked last slot leaves the rest as it was.
proof fn lemma_drop_last_slot<T>(sl1: Seq<Option<Node<T>>>, sl2: Seq<Option<Node<T>>>, ids1: Seq<usize>)
    requires
        1 <= sl1.len() <= usize::MAX,
        sl2 == sl1.drop_last(),
        ids1.len() == sl1.len() - 1,
        ids1.no_duplicates(),
        forall|j: int| 0 <= j < ids1.len() ==> #[trigger] ids1[j] < sl1.len() && ids1[j] != sl1.len() - 1,
        forall|x: int| 0 <= x < sl1.len() && x != sl1.len() - 1 ==> ids1.contains(#[trigger] (x as usize)),
        all_some(sl1),
        prev_ok(sl1, ids1),
        next_ok(sl1, ids1),
    ensures
        ids_ok(ids1, sl2.len()),
        all_some(sl2),
        prev_ok(sl2, ids1),
        next_ok(sl2, ids1),
        values_of(sl2, ids1) == values_of(sl1, ids1),
{
    reveal(ids_ok);
    reveal(all_some);
    reveal(prev_ok);
    reveal(next_ok);
    assert forall|j: int| 0 <= j < ids1.len() implies #[trigger] sl2[ids1[j] as int] == sl1[ids1[j] as int] by {}
    assert(values_of(sl2, ids1) =~= values_of(sl1, ids1));
}

/// Inserting a fresh slot number `n` into a listing of `0..n` lists `0..n + 1`.
proof fn lemma_insert_ids(ids0: Seq<usize>, k: int, n: usize)
    requires
        ids_ok(ids0, n as nat),
        0 <= k <= ids0.len(),
        n < usize::MAX,
    ensures
        ids_ok(ids0.insert(k, n), n as nat + 1),
        !ids0.contains(n),
{
    reveal(ids_ok);
    let ids1 = ids0.insert(k, n);
    ids0.insert_ensures(k, n);
    assert(!ids0.contains(n)) by {
        if ids0.contains(n) {
            let j = choose|j: int| 0 <= j < ids0.len() && ids0[j] == n;
            assert(ids0[j] < n);
        }
    }
    assert forall|a: int, b: int| 0 <= a < ids1.len() && 0 <= b < ids1.len() && a != b implies ids1[a] != ids1[b] by {
        if a != k && b != k {
            let a0 = if a < k { a } else { a - 1 };
            let b0 = if b < k { b } else { b - 1 };
            assert(ids0[a0] != ids0[b0]);
        } else if a == k {
            let b0 = if b < k { b } else { b - 1 };
            assert(ids0.contains(ids0[b0]));
        } else {
            let a0 = if a < k { a } else { a - 1 };
            assert(ids0.contains(ids0[a0]));
        }
    }
    assert forall|k2: int| 0 <= k2 < ids1.len() implies #[trigger] ids1[k2] < n + 1 by {
        if k2 < k {
        } else if k2 > k {
            assert(ids1[k2] == ids0[k2 - 1]);
        }
    }
    assert forall|x: int| 0 <= x < n + 1 implies ids1.contains(#[trigger] (x as usize)) by {
        if x == n {
            assert(ids1[k] == n);
        } else {
            assert(ids0.contains(x as usize));
            let j = choose|j: int| 0 <= j < ids0.len() && ids0[j] == x as usize;
            if j < k {
                assert(ids1[j] == x as usize);
            } else {
                assert(ids1[j + 1] == x as usize);
            }
        }
    }
}

/// The links after a new node in the fresh slot `n` has been put at position `k`.
proof fn lemma_insert_links<T>(sl0: Seq<Option<Node<T>>>, sl1: Seq<Option<Node<T>>>, ids0: Seq<usize>, k: int, n: usize, elem: T)
    requires
        ids_ok(ids0, sl0.len()),
        n == sl0.len(),
        all_some(sl0),
        prev_ok(sl0, ids0),
        next_ok(sl0, ids0),
        0 <= k <= ids0.len(),
        sl1.len() == sl0.len() + 1,
        sl1[n as int] == Some(Node {
            elem,
            prev: if k == 0 { None } else { Some(ids0[k - 1]) },
            next: if k == ids0.len() { None } else { Some(ids0[k]) },
        }),
        forall|x: int| 0 <= x < sl0.len() ==> {
            &&& #[trigger] sl1[x] is Some
            &&& sl1[x].unwrap().elem == sl0[x].unwrap().elem
            &&& sl1[x].unwrap().prev == (if k < ids0.len() && x == ids0[k] { Some(n) } else { sl0[x].unwrap().prev })
            &&& sl1[x].unwrap().next == (if k > 0 && x == ids0[k - 1] { Some(n) } else { sl0[x].unwrap().next })
        },
    ensures
        all_some(sl1),
        prev_ok(sl1, ids0.insert(k, n)),
        next_ok(sl1, ids0.insert(k, n)),
        values_of(sl1, ids0.insert(k, n)) == values_of(sl0, ids0).insert(k, elem),
{
    reveal(ids_ok);
    reveal(all_some);
    reveal(prev_ok);
    reveal(next_ok);
    let ids1 = ids0.insert(k, n);
    ids0.insert_ensures(k, n);
    assert(!ids0.contains(n)) by {
        if ids0.contains(n) {
            let j = choose|j: int| 0 <= j < ids0.len() && ids0[j] == n;
            assert(ids0[j] < n);
        }
    }
    assert forall|j: int| 0 <= j < ids1.len() implies (#[trigger] sl1[ids1[j] as int]).unwrap().prev
        == (if j == 0 { None } else { Some(ids1[j - 1]) }) by {
        if j < k {
            assert(ids1[j] == ids0[j]);
            assert(sl0[ids0[j] as int].unwrap().prev == (if j == 0 { None } else { Some(ids0[j - 1]) }));
            if k < ids0.len() {
                assert(ids0[j] != ids0[k]);
            }
        } else if j == k {
        } else if j == k + 1 {
            assert(ids1[j] == ids0[k]);
        } else {
            assert(ids1[j] == ids0[j - 1]);
            assert(ids0[j - 1] != ids0[k]);
            assert(sl0[ids0[j - 1] as int].unwrap().prev == Some(ids0[j - 2]));
        }
    }
    assert forall|j: int| 0 <= j < ids1.len() implies (#[trigger] sl1[ids1[j] as int]).unwrap().next
        == (if j == ids1.len() - 1 { None } else { Some(ids1[j + 1]) }) by {
        if j < k - 1 {
            assert(ids1[j] == ids0[j]);
            assert(ids0[j] != ids0[k - 1]);
            assert(sl0[ids0[j] as int].unwrap().next == Some(ids0[j + 1]));
        } else if j == k - 1 {
            assert(ids1[j] == ids0[k - 1]);
        } else if j == k {
        } else {
            assert(ids1[j] == ids0[j - 1]);
            if k > 0 {
                assert(ids0[j - 1] != ids0[k - 1]);
            }
            assert(sl0[ids0[j - 1] as int].unwrap().next == (if j - 1 == ids0.len() - 1 { None } else { Some(ids0[j]) }));
        }
    }
    let v0 = values_of(sl0, ids0);
    let v1 = values_of(sl1, ids1);
    assert forall|j: int| 0 <= j < ids1.len() implies #[trigger] v1[j] == v0.insert(k, elem)[j] by {
        if j < k {
            assert(ids1[j] == ids0[j]);
        } else if j > k {
            assert(ids1[j] == ids0[j - 1]);
        }
    }
    assert(v1 =~= v0.insert(k, elem));
}

/// `ids` with the slot number `from` written as `to`.
pub open spec fn relabel(ids: Seq<usize>, from: usize, to: usize) -> Seq<usize> {
    ids.map_values(|x: usize| if x == from { to } else { x })
}

/// The links after the node at position `k` has been linked out (its neighbours now
/// link to each other), with its slot not yet reclaimed.
proof fn lemma_unlink_links<T>(sl0: Seq<Option<Node<T>>>, sl1: Seq<Option<Node<T>>>, ids0: Seq<usize>, k: int)
    requires
        ids_ok(ids0, sl0.len()),
        all_some(sl0),
        prev_ok(sl0, ids0),
        next_ok(sl0, ids0),
        0 <= k < ids0.len(),
        sl1.len() == sl0.len(),
        forall|x: int| 0 <= x < sl0.len() ==> {
            &&& #[trigger] sl1[x] is Some
            &&& sl1[x].unwrap().elem == sl0[x].unwrap().elem
            &&& sl1[x].unwrap().prev == (if k + 1 < ids0.len() && x == ids0[k + 1] {
                sl0[ids0[k] as int].unwrap().prev
            } else {
                sl0[x].unwrap().prev
            })
            &&& sl1[x].unwrap().next == (if k > 0 && x == ids0[k - 1] {
                sl0[ids0[k] as int].unwrap().next
            } else {
                sl0[x].unwrap().next
            })
        },
    ensures
        prev_ok(sl1, ids0.remove(k)),
        next_ok(sl1, ids0.remove(k)),
        values_of(sl1, ids0.remove(k)) == values_of(sl0, ids0).remove(k),
{
    reveal(ids_ok);
    reveal(all_some);
    reveal(prev_ok);
    reveal(next_ok);
    let ids1 = ids0.remove(k);
    ids0.remove_ensures(k);
    assert forall|j: int| 0 <= j < ids1.len() implies (#[trigger] sl1[ids1[j] as int]).unwrap().prev
        == (if j == 0 { None } else { Some(ids1[j - 1]) }) by {
        assert(ids1[j] < sl0.len());
        if j < k {
            assert(ids1[j] == ids0[j]);
            if k + 1 < ids0.len() {
                assert(ids0[j] != ids0[k + 1]);
            }
        } else if j == k {
            assert(ids1[j] == ids0[k + 1]);
        } else {
            assert(ids1[j] == ids0[j + 1]);
            assert(ids0[j + 1] != ids0[k + 1]);
        }
    }
    assert forall|j: int| 0 <= j < ids1.len() implies (#[trigger] sl1[ids1[j] as int]).unwrap().next
        == (if j == ids1.len() - 1 { None } else { Some(ids1[j + 1]) }) by {
        assert(ids1[j] < sl0.len());
        if j < k - 1 {
            assert(ids1[j] == ids0[j]);
            assert(ids0[j] != ids0[k - 1]);
        } else if j == k - 1 {
            assert(ids1[j] == ids0[k - 1]);
        } else {
            assert(ids1[j] == ids0[j + 1]);
            if k > 0 {
                assert(ids0[j + 1] != ids0[k - 1]);
            }
        }
    }
    let v0 = values_of(sl0, ids0);
    let v1 = values_of(sl1, ids1);
    assert forall|j: int| 0 <= j < ids1.len() implies #[trigger] v1[j] == v0.remove(k)[j] by {
        assert(ids1[j] < sl0.len());
        if j >= k {
            assert(ids1[j] == ids0[j + 1]);
        }
    }
    assert(v1 =~= v0.remove(k));
}

/// The slot numbers left once the slot `i` has left a listing of `0..m`.
proof fn lemma_removed_ids(ids0: Seq<usize>, m: nat, k: int)
    requires
        ids_ok(ids0, m),
        0 <= k < ids0.len(),
        m <= usize::MAX,
    ensures
        ids0.remove(k).no_duplicates(),
        forall|j: int| 0 <= j < ids0.remove(k).len() ==> #[trigger] ids0.remove(k)[j] < m && ids0.remove(k)[j] != ids0[k],
        forall|x: int| 0 <= x < m && x != ids0[k] ==> ids0.remove(k).contains(#[trigger] (x as usize)),
{
    reveal(ids_ok);
    let ids1 = ids0.remove(k);
    ids0.remove_ensures(k);
    assert forall|a: int, b: int| 0 <= a < ids1.len() && 0 <= b < ids1.len() && a != b implies ids1[a] != ids1[b] by {
        let a0 = if a < k { a } else { a + 1 };
        let b0 = if b < k { b } else { b + 1 };
        assert(ids0[a0] != ids0[b0]);
    }
    assert forall|j: int| 0 <= j < ids1.len() implies #[trigger] ids1[j] < m && ids1[j] != ids0[k] by {
        let j0 = if j < k { j } else { j + 1 };
        assert(ids1[j] == ids0[j0]);
    }
    assert forall|x: int| 0 <= x < m && x != ids0[k] implies ids1.contains(#[trigger] (x as usize)) by {
        assert(ids0.contains(x as usize));
        let j = choose|j: int| 0 <= j < ids0.len() && ids0[j] == x as usize;
        if j < k {
            assert(ids1[j] == x as usize);
        } else {
            assert(ids1[j - 1] == x as usize);
        }
    }
}

/// The links after the node in the last slot `m - 1` has moved into the freed slot `i`
/// and its neighbours have been pointed at `i`.
proof fn lemma_move_links<T>(
    sl1: Seq<Option<Node<T>>>,
    sl2: Seq<Option<Node<T>>>,
    ids1: Seq<usize>,
    i: usize,
    h1: Option<usize>,
    t1: Option<usize>,
)
    requires
        1 <= sl1.len() <= usize::MAX,
        i < sl1.len() - 1,
        ids1.len() == sl1.len() - 1,
        ids1.no_duplicates(),
        forall|j: int| 0 <= j < ids1.len() ==> #[trigger] ids1[j] < sl1.len() && ids1[j] != i,
        forall|x: int| 0 <= x < sl1.len() && x != i ==> ids1.contains(#[trigger] (x as usize)),
        forall|x: int| 0 <= x < sl1.len() ==> #[trigger] sl1[x] is Some,
        prev_ok(sl1, ids1),
        next_ok(sl1, ids1),
        h1 == (if ids1.len() == 0 { None } else { Some(ids1[0]) }),
        t1 == (if ids1.len() == 0 { None } else { Some(ids1.last()) }),
        sl2.len() == sl1.len() - 1,
        sl2[i as int] == sl1[sl1.len() - 1],
        forall|x: int| 0 <= x < sl2.len() && x != i ==> {
            &&& #[trigger] sl2[x] is Some
            &&& sl2[x].unwrap().elem == sl1[x].unwrap().elem
            &&& sl2[x].unwrap().prev == (if sl1[sl1.len() - 1].unwrap().next == Some(x as usize) {
                Some(i)
            } else {
                sl1[x].unwrap().prev
            })
            &&& sl2[x].unwrap().next == (if sl1[sl1.len() - 1].unwrap().prev == Some(x as usize) {
                Some(i)
            } else {
                sl1[x].unwrap().next
            })
        },
    ensures
        ids_ok(relabel(ids1, (sl1.len() - 1) as usize, i), sl2.len()),
        all_some(sl2),
        prev_ok(sl2, relabel(ids1, (sl1.len() - 1) as usize, i)),
        next_ok(sl2, relabel(ids1, (sl1.len() - 1) as usize, i)),
        values_of(sl2, relabel(ids1, (sl1.len() - 1) as usize, i)) == values_of(sl1, ids1),
        (if sl1[sl1.len() - 1].unwrap().prev is None { Some(i) } else { h1 }) == (if ids1.len() == 0 {
            None
        } else {
            Some(relabel(ids1, (sl1.len() - 1) as usize, i)[0])
        }),
        (if sl1[sl1.len() - 1].unwrap().next is None { Some(i) } else { t1 }) == (if ids1.len() == 0 {
            None
        } else {
            Some(relabel(ids1, (sl1.len() - 1) as usize, i).last())
        }),
{
    reveal(ids_ok);
    reveal(all_some);
    reveal(prev_ok);
    reveal(next_ok);
    let last = (sl1.len() - 1) as usize;
    let ids2 = relabel(ids1, last, i);
    assert(ids1.contains(last));
    let jl = choose|j: int| 0 <= j < ids1.len() && ids1[j] == last;
    let lnode = sl1[last as int].unwrap();
    assert(lnode.prev == (if jl == 0 { None } else { Some(ids1[jl - 1]) }));
    assert(lnode.next == (if jl == ids1.len() - 1 { None } else { Some(ids1[jl + 1]) }));
    assert forall|j: int| 0 <= j < ids2.len() implies #[trigger] ids2[j] == (if j == jl { i } else { ids1[j] }) by {
        if j != jl {
            assert(ids1[j] != last);
        }
    }
    assert forall|a: int, b: int| 0 <= a < ids2.len() && 0 <= b < ids2.len() && a != b implies ids2[a] != ids2[b] by {
        assert(ids2[a] == (if a == jl { i } else { ids1[a] }));
        assert(ids2[b] == (if b == jl { i } else { ids1[b] }));
    }
    assert forall|j: int| 0 <= j < ids2.len() implies #[trigger] ids2[j] < sl2.len() by {
        assert(ids2[j] == (if j == jl { i } else { ids1[j] }));
        if j != jl {
            assert(ids1[j] != last);
        }
    }
    assert forall|x: int| 0 <= x < sl2.len() implies ids2.contains(#[trigger] (x as usize)) by {
        if x == i {
            assert(ids2[jl] == i);
        } else {
            assert(ids1.contains(x as usize));
            let j = choose|j: int| 0 <= j < ids1.len() && ids1[j] == x as usize;
            assert(ids2[j] == (if j == jl { i } else { ids1[j] }));
        }
    }
    assert forall|x: int| 0 <= x < sl2.len() implies #[trigger] sl2[x] is Some by {}
    assert forall|j: int| 0 <= j < ids2.len() implies (#[trigger] sl2[ids2[j] as int]).unwrap().prev
        == (if j == 0 { None } else { Some(ids2[j - 1]) }) by {
        assert(ids2[j] == (if j == jl { i } else { ids1[j] }));
        if j > 0 {
            assert(ids2[j - 1] == (if j - 1 == jl { i } else { ids1[j - 1] }));
        }
        if j != jl {
            let x = ids1[j];
            assert(x != last);
            assert(x < sl2.len());
            assert(sl1[x as int].unwrap().prev == (if j == 0 { None } else { Some(ids1[j - 1]) }));
            if lnode.next == Some(x) {
                assert(ids1[jl + 1] == x);
                assert(j == jl + 1);
            } else if j > 0 && j - 1 == jl {
                assert(lnode.next == Some(ids1[jl + 1]));
            }
        }
    }
    assert forall|j: int| 0 <= j < ids2.len() implies (#[trigger] sl2[ids2[j] as int]).unwrap().next
        == (if j == ids2.len() - 1 { None } else { Some(ids2[j + 1]) }) by {
        assert(ids2[j] == (if j == jl { i } else { ids1[j] }));
        if j < ids2.len() - 1 {
            assert(ids2[j + 1] == (if j + 1 == jl { i } else { ids1[j + 1] }));
        }
        if j != jl {
            let x = ids1[j];
            assert(x != last);
            assert(x < sl2.len());
            assert(sl1[x as int].unwrap().next == (if j == ids1.len() - 1 { None } else { Some(ids1[j + 1]) }));
            if lnode.prev == Some(x) {
                assert(ids1[jl - 1] == x);
                assert(j == jl - 1);
            } else if j < ids1.len() - 1 && j + 1 == jl {
                assert(lnode.prev == Some(ids1[jl - 1]));
            }
        }
    }
    let v1 = values_of(sl1, ids1);
    let v2 = values_of(sl2, ids2);
    assert forall|j: int| 0 <= j < ids2.len() implies #[trigger] v2[j] == v1[j] by {
        assert(ids2[j] == (if j == jl { i } else { ids1[j] }));
    }
    assert(v2 =~= v1);
    if ids1.len() > 0 {
        assert(ids2[0] == (if 0 == jl { i } else { ids1[0] }));
        assert(ids2.last() == (if ids1.len() - 1 == jl { i } else { ids1.last() }));
    }
}

/// Stepping to the next node and back to the previous one returns to the same node:
/// `next` hands out the node listed after, and `prev` the node listed before.
pub proof fn lemma_next_prev<T>(list: &DoublyLinkedList<T>, a: Anchor, b: Anchor)
    requires
        list.wf(),
        list.holds(a),
        list.position(a) < list@.len() - 1,
        b@ == list.ids()[list.position(a) + 1],
    ensures
        list.holds(b),
        list.position(b) == list.position(a) + 1,
        list.ids()[list.position(b) - 1] == a@,
{
    list.lemma_position(a);
    assert(list.ids().contains(b@));
    list.lemma_position(b);
}

/// The view left after pushing `vals` one by one at the back, from `start`.
pub open spec fn pushed_back<T>(start: Seq<T>, vals: Seq<T>) -> Seq<T>
    decreases vals.len(),
{
    if vals.len() == 0 {
        start
    } else {
        pushed_back(start.push(vals[0]), vals.drop_first())
    }
}

/// The values handed out by detaching the back of a list whose view is `s` until it is
/// empty: each is the last value, and the view loses it.
pub open spec fn drained_back<T>(s: Seq<T>) -> Seq<T>
    decreases s.len(),
{
    if s.len() == 0 {
        Seq::empty()
    } else {
        seq![s.last()] + drained_back(s.drop_last())
    }
}

/// Pushing values at the back of an empty list and then detaching from the back until it
/// is empty hands the values back in reverse order.
pub proof fn lemma_round_trip<T>(vals: Seq<T>)
    ensures
        pushed_back(Seq::empty(), vals) == vals,
        drained_back(vals) == vals.reverse(),
{
    lemma_pushed_back(Seq::empty(), vals);
    assert(Seq::<T>::empty() + vals =~= vals);
    lemma_drained_back(vals);
}

proof fn lemma_pushed_back<T>(start: Seq<T>, vals: Seq<T>)
    ensures
        pushed_back(start, vals) == start + vals,
    decreases vals.len(),
{
    if vals.len() > 0 {
        lemma_pushed_back(start.push(vals[0]), vals.drop_first());
        assert(start.push(vals[0]) + vals.drop_first() =~= start + vals);
    } else {
        assert(start + vals =~= start);
    }
}

proof fn lemma_drained_back<T>(s: Seq<T>)
    ensures
        drained_back(s) == s.reverse(),
    decreases s.len(),
{
    if s.len() > 0 {
        lemma_drained_back(s.drop_last());
        assert(seq![s.last()] + s.drop_last().reverse() =~= s.reverse());
    } else {
        assert(s.reverse() =~= Seq::<T>::empty());
    }
}

} // verus!
