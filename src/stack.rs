//! A last-in first-out stack on a `DoublyLinkedList`: entries go in and leave at the tail.
use vstd::prelude::*;
use crate::doubly_linked_list::DoublyLinkedList;

verus! {

pub struct Stack<T> {
    list: DoublyLinkedList<T>,
}

impl<T> View for Stack<T> {
    type V = Seq<T>;

    /// The entries, oldest first.
    closed spec fn view(&self) -> Seq<T> {
        self.list@
    }
}

impl<T> Stack<T> {
    pub closed spec fn wf(&self) -> bool {
        self.list.wf()
    }

    pub fn new() -> (r: Stack<T>)
        ensures
            r.wf(),
            r@ == Seq::<T>::empty(),
    {
        Stack { list: DoublyLinkedList::new() }
    }

    pub fn is_empty(&self) -> (r: bool)
        requires
            self.wf(),
        ensures
            r == (self@.len() == 0),
    {
        self.list.is_empty()
    }

    pub fn size(&self) -> (r: usize)
        requires
            self.wf(),
        ensures
            r == self@.len(),
    {
        self.list.len()
    }

    /// Adds `elem` as the newest entry.
    pub fn push(&mut self, elem: T)
        requires
            old(self).wf(),
            old(self)@.len() < usize::MAX,
        ensures
            final(self).wf(),
            final(self)@ == old(self)@.push(elem),
    {
        self.list.insert_back(elem);
    }

    /// Takes out the newest entry, or `None` if the stack is empty.
    pub fn pop(&mut self) -> (r: Option<T>)
        requires
            old(self).wf(),
        ensures
            final(self).wf(),
            r is None == (old(self)@.len() == 0),
            r is Some ==> r.unwrap() == old(self)@.last() && final(self)@ == old(self)@.drop_last(),
            r is None ==> final(self)@ == old(self)@,
    {
        match self.list.detach_back() {
            Some(n) => Some(n.into_value()),
            None => None,
        }
    }

    /// The newest entry, if any.
    pub fn peek(&self) -> (r: Option<&T>)
        requires
            self.wf(),
        ensures
            r is Some == (self@.len() > 0),
            r is Some ==> *r.unwrap() == self@.last(),
    {
        self.list.back_ref()
    }

    /// The newest entry, to change in place, if any.
    pub fn peek_mut(&mut self) -> (r: Option<&mut T>)
        requires
            old(self).wf(),
        ensures
            r is Some == (old(self)@.len() > 0),
            r is Some ==> *r.unwrap() == old(self)@.last(),
            r is Some ==> final(self).wf() && final(self)@ == old(self)@.update(
                old(self)@.len() - 1,
                *final(r.unwrap()),
            ),
            r is None ==> *final(self) == *old(self),
    {
        self.list.back_mut()
    }
}

} // verus!
