use vstd::prelude::*;

verus! {

/// A stack of at most 21 entries kept in a fixed array, so that it needs no
/// allocator. It is never empty: the entry it was made with stays at the bottom.
pub struct EStack<T: Clone> {
    stack: [T; 21],
    pointer: usize,
}

impl<T: Clone> EStack<T> {
    /// The entries from the bottom of the stack to its top.
    pub closed spec fn view(&self) -> Seq<T> {
        self.stack@.subrange(0, self.pointer + 1)
    }

    pub closed spec fn wf(&self) -> bool {
        self.pointer < 21
    }

    /// Puts `vars` on top of the stack.
    pub fn push(&mut self, vars: T)
        requires
            old(self).wf(),
            old(self)@.len() < 21,
        ensures
            final(self).wf(),
            final(self)@ == old(self)@.push(vars),
    {
        self.pointer += 1;
        self.stack[self.pointer] = vars;
        assert(self@ =~= old(self)@.push(vars));
    }

    /// The entry on top of the stack, to read or change in place.
    pub fn read(&mut self) -> (top: &mut T)
        requires
            old(self).wf(),
        ensures
            final(self).wf(),
            *top == old(self)@.last(),
            final(self)@ == old(self)@.update(old(self)@.len() - 1, *final(top)),
    {
        &mut self.stack[self.pointer]
    }

    /// Takes the entry on top of the stack away.
    pub fn pop(&mut self)
        requires
            old(self).wf(),
            old(self)@.len() > 1,
        ensures
            final(self).wf(),
            final(self)@ == old(self)@.drop_last(),
    {
        self.pointer -= 1;
        assert(self@ =~= old(self)@.drop_last());
    }

    /// A stack that holds one entry, a clone of `vars`.
    pub fn new(vars: T) -> (s: Self)
        ensures
            s.wf(),
            s@.len() == 1,
            cloned(vars, s@[0]),
    {
        EStack {
            stack: [
                vars.clone(),
                vars.clone(),
                vars.clone(),
                vars.clone(),
                vars.clone(),
                vars.clone(),
                vars.clone(),
                vars.clone(),
                vars.clone(),
                vars.clone(),
                vars.clone(),
                vars.clone(),
                vars.clone(),
                vars.clone(),
                vars.clone(),
                vars.clone(),
                vars.clone(),
                vars.clone(),
                vars.clone(),
                vars.clone(),
                vars.clone(),
            ],
            pointer: 0,
        }
    }
}

} // verus!
