use vstd::prelude::*;

verus! {

/// Process-unique integer identifying one card instance or board slot for the
/// lifetime of a match.
pub type EntryId = usize;

/// Index of a player in the match.
pub type PlayerId = usize;

/// Identifier of a card definition in the catalog.
pub type CardInfoId = String;

/// Hands out fresh entry ids, strictly increasing from 1.
#[derive(Clone, Copy, Debug)]
pub struct IdGenerator(pub usize);

impl IdGenerator {
    pub fn new() -> (r: Self)
        ensures
            r.0 == 0,
    {
        IdGenerator(0)
    }

    pub fn next(&mut self) -> (r: usize)
        requires
            old(self).0 < usize::MAX,
        ensures
            final(self).0 == old(self).0 + 1,
            r == final(self).0,
    {
        self.0 = self.0 + 1;
        self.0
    }
}

} // verus!
