//! Identifier factories: counters that hand out each number once.
use vstd::prelude::*;

verus! {

/// Hands out increasing `u32` identifiers from an origin on; each at most once.
pub struct IdFactory {
    next: u64,
}

impl View for IdFactory {
    /// The next identifier to hand out; every smaller one from the origin
    /// on has been issued. Past `u32::MAX` the factory is exhausted.
    type V = nat;

    closed spec fn view(&self) -> nat {
        self.next as nat
    }
}

impl IdFactory {
    pub closed spec fn wf(&self) -> bool {
        self.next <= u32::MAX as u64 + 1
    }

    /// A factory whose first identifier is `origin`.
    pub fn new(origin: u32) -> (r: Self)
        ensures
            r.wf(),
            r@ == origin as nat,
    {
        IdFactory { next: origin as u64 }
    }

    /// Whether every identifier has been handed out.
    pub fn is_exhausted(&self) -> (r: bool)
        requires
            self.wf(),
        ensures
            r == (self@ > u32::MAX),
    {
        self.next > u32::MAX as u64
    }

    /// The next identifier, or `None` once the identifier space is used up.
    pub fn next_id(&mut self) -> (r: Option<u32>)
        requires
            old(self).wf(),
        ensures
            final(self).wf(),
            old(self)@ <= u32::MAX ==> r == Some(old(self)@ as u32) && final(self)@ == old(self)@ + 1,
            old(self)@ > u32::MAX ==> r is None && final(self)@ == old(self)@,
    {
        if self.next > u32::MAX as u64 {
            None
        } else {
            let id = self.next as u32;
            self.next = self.next + 1;
            Some(id)
        }
    }
}

} // verus!
