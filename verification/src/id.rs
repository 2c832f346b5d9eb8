use vstd::prelude::*;

verus! {

/// A program-wide identifier for variables, procedures and labels.
#[derive(Clone, Copy, PartialEq, Eq, PartialOrd, Ord, Hash, Debug, Structural)]
pub struct Id(pub usize);

impl View for Id {
    type V = Id;

    open spec fn view(&self) -> Id {
        *self
    }
}

/// Hands out fresh identifiers, counting up from one.
#[derive(Clone, Debug)]
pub struct IdGen(pub usize);

impl IdGen {
    /// The next identifier that `generate` will hand out.
    pub open spec fn next(self) -> nat {
        self.0 as nat
    }

    pub fn new() -> (g: IdGen)
        ensures
            g.next() == 1,
    {
        IdGen(1)
    }

    /// Returns a fresh identifier; every identifier handed out before is smaller.
    pub fn generate(&mut self) -> (id: Id)
        requires
            old(self).next() < usize::MAX,
        ensures
            id.0 == old(self).next(),
            final(self).next() == old(self).next() + 1,
    {
        let id = Id(self.0);
        self.0 = self.0 + 1;
        id
    }
}

/// Identifiers come out strictly increasing: of two calls of `generate`,
/// one after the other on the same generator, the second gives the larger
/// identifier.
pub proof fn lemma_ids_increase(g0: IdGen, a: Id, g1: IdGen, b: Id, g2: IdGen)
    requires
        a.0 == g0.next(),
        g1.next() == g0.next() + 1,
        b.0 == g1.next(),
        g2.next() == g1.next() + 1,
    ensures
        a.0 < b.0,
        g2.next() > b.0,
{
}

} // verus!
