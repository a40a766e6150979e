//! A stack over a growable array that doubles its reserved room when full.

use vstd::prelude::*;

verus! {

/// Relies on `Vec::reserve_exact`: it reserves room and leaves the elements as they were.
#[verifier::external_body]
fn reserve_exact<T>(v: &mut Vec<T>, additional: usize)
    ensures
        final(v)@ == old(v)@,
{
    v.reserve_exact(additional)
}

/// Relies on `Vec::shrink_to`: it releases room and leaves the elements as they were.
#[verifier::external_body]
fn shrink_to<T>(v: &mut Vec<T>, min_capacity: usize)
    ensures
        final(v)@ == old(v)@,
{
    v.shrink_to(min_capacity)
}

/// A last-in first-out stack; `size` is the room it has asked its array for.
pub struct Stack<T> {
    pub data: Vec<T>,
    pub n: usize,
    pub size: usize,
}

impl<T> View for Stack<T> {
    type V = Seq<T>;

    /// The elements, bottom first.
    open spec fn view(&self) -> Seq<T> {
        self.data@
    }
}

impl<T> Stack<T> {
    /// `n` counts the elements and `size` is a positive room of at least `n`.
    pub open spec fn wf(&self) -> bool {
        &&& self.n == self.data@.len()
        &&& 1 <= self.size
        &&& self.n <= self.size
    }

    /// An empty stack with room for one element.
    pub fn new() -> (r: Stack<T>)
        ensures
            r.wf(),
            r@ == Seq::<T>::empty(),
    {
        Stack { n: 0, size: 1, data: Vec::with_capacity(1) }
    }

    /// Whether the stack holds no element.
    pub fn is_empty(&self) -> (r: bool)
        requires
            self.wf(),
        ensures
            r == (self@.len() == 0),
    {
        if self.n > 0 {
            false
        } else {
            true
        }
    }

    /// Doubles the room reserved for elements.
    fn double(&mut self)
        requires
            old(self).wf(),
            old(self).size <= usize::MAX / 2,
        ensures
            final(self).wf(),
            final(self)@ == old(self)@,
            final(self).size == 2 * old(self).size,
    {
        let additional = self.size;
        reserve_exact(&mut self.data, additional);
        self.size = self.size * 2;
    }

    /// Puts `elem` on top, doubling the room first when the stack is full.
    pub fn push(&mut self, elem: T)
        requires
            old(self).wf(),
            old(self)@.len() < usize::MAX / 2,
        ensures
            final(self).wf(),
            final(self)@ == old(self)@.push(elem),
    {
        if self.n == self.size {
            self.double();
        }
        self.data.push(elem);
        self.n += 1;
    }

    /// Takes the top element off, or `None` when the stack is empty; when
    /// only a quarter of the room is in use the room is halved first.
    pub fn pop(&mut self) -> (r: Option<T>)
        requires
            old(self).wf(),
        ensures
            final(self).wf(),
            old(self)@.len() == 0 ==> r is None && final(self)@ == old(self)@,
            old(self)@.len() > 0 ==> r == Some(old(self)@.last()) && final(self)@ == old(self)@.drop_last(),
    {
        if self.n > 0 && self.size / 4 == self.n {
            let half = self.size / 2;
            shrink_to(&mut self.data, half);
            self.size = half;
            self.n -= 1;
            self.data.pop()
        } else if self.n > 0 {
            self.n -= 1;
            self.data.pop()
        } else {
            None
        }
    }

    /// Draining step: the same as `pop`.
    pub fn next(&mut self) -> (r: Option<T>)
        requires
            old(self).wf(),
        ensures
            final(self).wf(),
            old(self)@.len() == 0 ==> r is None && final(self)@ == old(self)@,
            old(self)@.len() > 0 ==> r == Some(old(self)@.last()) && final(self)@ == old(self)@.drop_last(),
    {
        self.pop()
    }
}

} // verus!
