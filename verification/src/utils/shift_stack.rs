//! A stack inside a fixed-size buffer whose top can be shifted, in order,
//! into a finished front part.

use vstd::prelude::*;

verus! {

/// A buffer of `size` slots holding a finished front part, filled in order
/// by `shift`, and a stack of pushed values.
pub struct ShiftStack<T> {
    shifted: Vec<T>,
    pushed: Vec<T>,
    size: usize,
}

impl<T> ShiftStack<T> {
    /// The finished front part, in the order it was shifted.
    pub closed spec fn front(&self) -> Seq<T> {
        self.shifted@
    }

    /// The stack, bottom first.
    pub closed spec fn stack(&self) -> Seq<T> {
        self.pushed@
    }

    pub closed spec fn size(&self) -> nat {
        self.size as nat
    }

    pub closed spec fn wf(&self) -> bool {
        self.shifted@.len() + self.pushed@.len() <= self.size
    }

    /// The number of free slots.
    pub open spec fn spare_spec(&self) -> int {
        self.size() - self.front().len() - self.stack().len()
    }

    pub fn new(size: usize) -> (s: Self)
        ensures
            s.wf(),
            s.size() == size,
            s.front() == Seq::<T>::empty(),
            s.stack() == Seq::<T>::empty(),
    {
        ShiftStack { shifted: Vec::new(), pushed: Vec::new(), size }
    }

    pub fn push(&mut self, value: T)
        requires
            old(self).wf(),
            old(self).spare_spec() > 0,
        ensures
            final(self).wf(),
            final(self).size() == old(self).size(),
            final(self).front() == old(self).front(),
            final(self).stack() == old(self).stack().push(value),
    {
        self.pushed.push(value);
    }

    pub fn pop(&mut self) -> (r: Option<T>)
        requires
            old(self).wf(),
        ensures
            final(self).wf(),
            final(self).size() == old(self).size(),
            final(self).front() == old(self).front(),
            old(self).stack().len() == 0 ==> r is None && final(self).stack() == old(self).stack(),
            old(self).stack().len() > 0 ==> r == Some(old(self).stack().last())
                && final(self).stack() == old(self).stack().drop_last(),
    {
        self.pushed.pop()
    }

    pub fn top(&self) -> (r: Option<&T>)
        ensures
            self.stack().len() == 0 ==> r is None,
            self.stack().len() > 0 ==> r == Some(&self.stack().last()),
    {
        let n = self.pushed.len();
        if n == 0 {
            None
        } else {
            Some(&self.pushed[n - 1])
        }
    }

    /// Moves the top of the stack to the end of the front part.
    pub fn shift(&mut self)
        requires
            old(self).wf(),
            old(self).stack().len() > 0,
        ensures
            final(self).wf(),
            final(self).size() == old(self).size(),
            final(self).front() == old(self).front().push(old(self).stack().last()),
            final(self).stack() == old(self).stack().drop_last(),
    {
        match self.pushed.pop() {
            Some(top) => self.shifted.push(top),
            None => {},
        }
    }

    /// The whole buffer: the front part, then the stack from its top down.
    pub fn into_boxed_slice(self) -> (r: Vec<T>)
        requires
            self.wf(),
            self.spare_spec() == 0,
        ensures
            r@ == self.front() + self.stack().reverse(),
    {
        let mut out = self.shifted;
        let mut rest = self.pushed;
        let ghost front = out@;
        let ghost stack = rest@;
        while rest.len() > 0
            invariant
                out@ == front + stack.subrange(rest@.len() as int, stack.len() as int).reverse(),
                rest@ == stack.subrange(0, rest@.len() as int),
                rest@.len() <= stack.len(),
            decreases rest@.len(),
        {
            let ghost k = rest@.len() as int;
            match rest.pop() {
                Some(x) => {
                    out.push(x);
                    assert(stack.subrange(k - 1, stack.len() as int).reverse()
                        =~= stack.subrange(k, stack.len() as int).reverse().push(stack[k - 1]));
                },
                None => {},
            }
        }
        assert(stack.subrange(0, stack.len() as int) =~= stack);
        out
    }

    pub fn spare(&self) -> (n: usize)
        requires
            self.wf(),
        ensures
            n == self.spare_spec(),
    {
        self.size - self.shifted.len() - self.pushed.len()
    }
}

} // verus!
