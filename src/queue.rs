//! A first-in first-out queue kept as two singly linked lists: the front
//! part in order, and the back part with the newest element first.

use vstd::prelude::*;

verus! {

/// An optional owned node.
pub type Link<T> = Option<Box<Node<T>>>;

/// One element and the rest of its list.
pub struct Node<T> {
    pub elem: T,
    pub next: Link<T>,
}

/// The elements of a list, from `link` onwards.
pub open spec fn link_seq<T>(link: Link<T>) -> Seq<T>
    decreases link,
{
    match link {
        None => Seq::empty(),
        Some(n) => seq![n.elem] + link_seq(n.next),
    }
}

/// A first-in first-out queue.
pub struct Queue<T> {
    pub head: Link<T>,
    pub tail: Link<T>,
}

impl<T> View for Queue<T> {
    type V = Seq<T>;

    /// The elements, oldest first.
    open spec fn view(&self) -> Seq<T> {
        link_seq(self.head) + link_seq(self.tail).reverse()
    }
}

impl<T> Queue<T> {
    /// An empty queue.
    pub fn new() -> (r: Queue<T>)
        ensures
            r@ == Seq::<T>::empty(),
    {
        let r = Queue { head: None, tail: None };
        assert(r@ =~= Seq::<T>::empty());
        r
    }

    /// Adds `elem` at the back.
    pub fn enqueue(&mut self, elem: T)
        ensures
            final(self)@ == old(self)@.push(elem),
    {
        let old_tail = self.tail.take();
        self.tail = Some(Box::new(Node { elem: elem, next: old_tail }));
        assert(link_seq(self.tail).reverse() =~= link_seq(old(self).tail).reverse().push(elem));
        assert(self@ =~= old(self)@.push(elem));
    }

    /// Moves the back part, reversed, to the front; requires an empty front.
    fn refill(&mut self)
        requires
            old(self).head.is_none(),
        ensures
            final(self).tail.is_none(),
            final(self)@ == old(self)@,
    {
        assert(old(self)@ =~= link_seq(old(self).tail).reverse());
        while self.tail.is_some()
            invariant
                old(self)@ == link_seq(self.tail).reverse() + link_seq(self.head),
            decreases link_seq(self.tail).len(),
        {
            let node = *self.tail.take().unwrap();
            let rest = node.next;
            let ghost before_tail = link_seq(Some(Box::new(Node { elem: node.elem, next: rest })));
            let old_head = self.head.take();
            self.head = Some(Box::new(Node { elem: node.elem, next: old_head }));
            self.tail = rest;
            assert(before_tail.reverse() =~= link_seq(self.tail).reverse() + seq![node.elem]);
            assert(old(self)@ =~= link_seq(self.tail).reverse() + link_seq(self.head));
        }
        assert(self@ =~= link_seq(self.head));
        assert(old(self)@ =~= link_seq(self.head));
    }

    /// Takes the oldest element out, or `None` when the queue is empty.
    pub fn dequeue(&mut self) -> (r: Option<T>)
        ensures
            old(self)@.len() == 0 ==> r is None && final(self)@ == old(self)@,
            old(self)@.len() > 0 ==> r == Some(old(self)@[0]) && final(self)@ == old(self)@.drop_first(),
    {
        if self.head.is_none() {
            self.refill();
        }
        let ghost mid = self@;
        match self.head.take() {
            None => {
                assert(self@ =~= mid);
                None
            },
            Some(old_head) => {
                let node = *old_head;
                self.head = node.next;
                assert(self@ =~= mid.drop_first());
                Some(node.elem)
            },
        }
    }

    /// Whether the queue holds no element.
    pub fn is_empty(&self) -> (r: bool)
        ensures
            r == (self@.len() == 0),
    {
        match (&self.head, &self.tail) {
            (None, None) => true,
            _ => false,
        }
    }

    /// Draining step: the same as `dequeue`.
    pub fn next(&mut self) -> (r: Option<T>)
        ensures
            old(self)@.len() == 0 ==> r is None && final(self)@ == old(self)@,
            old(self)@.len() > 0 ==> r == Some(old(self)@[0]) && final(self)@ == old(self)@.drop_first(),
    {
        self.dequeue()
    }
}

} // verus!
