//! A stack that holds at most the number of items it was made for.
use vstd::prelude::*;

verus! {

/// A bounded stack. A push onto a full stack is ignored.
pub struct Stack<T> {
    items: Vec<T>,
    max_size: usize,
}

impl<T> View for Stack<T> {
    type V = Seq<T>;

    /// The items, bottom first.
    closed spec fn view(&self) -> Seq<T> {
        self.items@
    }
}

impl<T> Stack<T> {
    /// The number of items the stack can hold.
    pub closed spec fn capacity(&self) -> nat {
        self.max_size as nat
    }

    /// The stack holds no more than its capacity.
    pub closed spec fn wf(&self) -> bool {
        self.items@.len() <= self.max_size
    }

    /// An empty stack for at most `max_size` items.
    pub fn new(max_size: usize) -> (r: Stack<T>)
        ensures
            r.wf(),
            r@ == Seq::<T>::empty(),
            r.capacity() == max_size,
    {
        Stack { items: Vec::new(), max_size }
    }

    /// The number of items on the stack.
    pub fn size(&self) -> (r: usize)
        ensures
            r == self@.len(),
    {
        self.items.len()
    }

    /// Whether the stack holds no item.
    pub fn is_empty(&self) -> (r: bool)
        ensures
            r == (self@.len() == 0),
    {
        self.items.len() == 0
    }

    /// Puts `e` on top, unless the stack is full.
    pub fn push(&mut self, e: T)
        requires
            old(self).wf(),
        ensures
            final(self).wf(),
            final(self).capacity() == old(self).capacity(),
            final(self)@ == if old(self)@.len() < old(self).capacity() {
                old(self)@.push(e)
            } else {
                old(self)@
            },
    {
        if self.items.len() != self.max_size {
            self.items.push(e);
        }
    }

    /// Takes the top item off, if there is one.
    pub fn pop(&mut self) -> (r: Option<T>)
        requires
            old(self).wf(),
        ensures
            final(self).wf(),
            final(self).capacity() == old(self).capacity(),
            old(self)@.len() == 0 ==> r is None && final(self)@ == old(self)@,
            old(self)@.len() > 0 ==> r == Some(old(self)@.last()) && final(self)@
                == old(self)@.drop_last(),
    {
        if self.is_empty() {
            None
        } else {
            self.items.pop()
        }
    }

    /// The items, bottom first.
    pub fn as_slice(&self) -> (r: &[T])
        ensures
            r@ == self@,
    {
        self.items.as_slice()
    }
}

impl<T> std::ops::Deref for Stack<T> {
    type Target = [T];

    fn deref(&self) -> &[T] {
        self.as_slice()
    }
}

impl<T> std::ops::DerefMut for Stack<T> {
    fn deref_mut(&mut self) -> &mut [T] {
        self.items.as_mut_slice()
    }
}

} // verus!
