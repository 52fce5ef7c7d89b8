use vstd::prelude::*;

verus! {

/// One side's simultaneous choice of two symbols. The two components may be
/// equal; the pair is a plain value compared by its components.
#[derive(Clone, Copy, Debug, PartialEq, Eq, Hash, Structural)]
pub struct Input(pub usize, pub usize);

impl Input {
    /// Pack two symbol identifiers into a pair.
    pub fn new(i: usize, j: usize) -> (r: Self)
        ensures
            r.0 == i,
            r.1 == j,
    {
        Input(i, j)
    }

    /// The four ordered cross pairings of this pair's symbols with the
    /// other pair's symbols, in the order: first-first, second-second,
    /// first-second, second-first.
    pub fn combine(&self, other: &Self) -> (r: [Input; 4])
        ensures
            r@.len() == 4,
            r@[0] == Input(self.0, other.0),
            r@[1] == Input(self.1, other.1),
            r@[2] == Input(self.0, other.1),
            r@[3] == Input(self.1, other.0),
    {
        [
            Input(self.0, other.0),
            Input(self.1, other.1),
            Input(self.0, other.1),
            Input(self.1, other.0),
        ]
    }
}

} // verus!
