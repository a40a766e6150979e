//! A stack kept as a singly linked list of owned nodes, top first.

use vstd::prelude::*;

verus! {

/// An optional owned node.
pub type Link<T> = Option<Box<Node<T>>>;

/// One element of the stack and the rest below it.
pub struct Node<T> {
    pub elem: T,
    pub next: Link<T>,
}

/// The elements from `link` downwards, top first.
pub open spec fn link_seq<T>(link: Link<T>) -> Seq<T>
    decreases link,
{
    match link {
        None => Seq::empty(),
        Some(n) => seq![n.elem] + link_seq(n.next),
    }
}

/// A last-in first-out stack.
pub struct Stack<T> {
    pub head: Link<T>,
}

impl<T> View for Stack<T> {
    type V = Seq<T>;

    /// The elements, top first.
    open spec fn view(&self) -> Seq<T> {
        link_seq(self.head)
    }
}

impl<T> Stack<T> {
    /// An empty stack.
    pub fn new() -> (r: Stack<T>)
        ensures
            r@ == Seq::<T>::empty(),
    {
        Stack { head: None }
    }

    /// Puts `elem` on top.
    pub fn push(&mut self, elem: T)
        ensures
            final(self)@ == seq![elem] + old(self)@,
    {
        let old_head = self.head.take();
        self.head = Some(Box::new(Node { elem: elem, next: old_head }));
    }

    /// Takes the top element off, or `None` when the stack is empty.
    pub fn pop(&mut self) -> (r: Option<T>)
        ensures
            old(self)@.len() == 0 ==> r is None && final(self)@ == old(self)@,
            old(self)@.len() > 0 ==> r == Some(old(self)@[0]) && final(self)@ == old(self)@.drop_first(),
    {
        match self.head.take() {
            None => None,
            Some(old_head) => {
                let node = *old_head;
                self.head = node.next;
                assert(link_seq(self.head) =~= old(self)@.drop_first());
                Some(node.elem)
            },
        }
    }

    /// Whether the stack holds no element.
    pub fn is_empty(&self) -> (r: bool)
        ensures
            r == (self@.len() == 0),
    {
        match self.head {
            None => true,
            Some(_) => false,
        }
    }

    /// Draining step: the same as `pop`.
    pub fn next(&mut self) -> (r: Option<T>)
        ensures
            old(self)@.len() == 0 ==> r is None && final(self)@ == old(self)@,
            old(self)@.len() > 0 ==> r == Some(old(self)@[0]) && final(self)@ == old(self)@.drop_first(),
    {
        self.pop()
    }
}

} // verus!
