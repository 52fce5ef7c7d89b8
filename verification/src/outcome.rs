use vstd::prelude::*;

verus! {

/// The result of pitting one symbol against another, seen from the first
/// symbol's side.
#[derive(Clone, Copy, Debug, PartialEq, Eq, Structural)]
pub enum Outcome {
    Draw,
    Win,
    Loss,
}

/// Everything that can go wrong while building or consulting a relation
/// table.
#[derive(Clone, Copy, Debug, PartialEq, Eq, Structural)]
pub enum RelationError {
    /// A grid byte is not one of the recognized outcome codes.
    InvalidOutcomeCode,
    /// A derived reverse outcome contradicts an explicitly supplied one.
    InconsistentRelation,
    /// A lookup targeted an ordered pair that was never populated.
    MissingRelation,
}

impl Outcome {
    /// The same contest seen from the other symbol's side.
    pub open spec fn spec_rev(self) -> Outcome {
        match self {
            Outcome::Draw => Outcome::Draw,
            Outcome::Win => Outcome::Loss,
            Outcome::Loss => Outcome::Win,
        }
    }

    /// Reverse the perspective: a win becomes a loss, a loss a win, and a
    /// draw stays a draw.
    pub fn rev(&self) -> (r: Outcome)
        ensures
            r == self.spec_rev(),
    {
        match self {
            Outcome::Draw => Outcome::Draw,
            Outcome::Win => Outcome::Loss,
            Outcome::Loss => Outcome::Win,
        }
    }
}

/// The byte `D`, the code for a draw.
pub const CODE_DRAW: u8 = 68;

/// The byte `W`, the code for a win.
pub const CODE_WIN: u8 = 87;

/// The byte `L`, the code for a loss.
pub const CODE_LOSS: u8 = 76;

/// What a single grid byte denotes: `D`, `W` and `L` name the three
/// outcomes, every other byte is invalid.
pub open spec fn spec_decode(code: u8) -> Option<Outcome> {
    if code == CODE_DRAW {
        Some(Outcome::Draw)
    } else if code == CODE_WIN {
        Some(Outcome::Win)
    } else if code == CODE_LOSS {
        Some(Outcome::Loss)
    } else {
        None
    }
}

/// Reverse the perspective of an outcome that may be absent.
pub open spec fn spec_rev_opt(o: Option<Outcome>) -> Option<Outcome> {
    match o {
        Some(v) => Some(v.spec_rev()),
        None => None,
    }
}

impl Outcome {
    /// Decode one grid byte, rejecting anything outside the outcome
    /// alphabet.
    pub fn decode(code: u8) -> (r: Result<Outcome, RelationError>)
        ensures
            match r {
                Ok(o) => spec_decode(code) == Some(o),
                Err(e) => e == RelationError::InvalidOutcomeCode && spec_decode(code) is None,
            },
    {
        if code == CODE_DRAW {
            Ok(Outcome::Draw)
        } else if code == CODE_WIN {
            Ok(Outcome::Win)
        } else if code == CODE_LOSS {
            Ok(Outcome::Loss)
        } else {
            Err(RelationError::InvalidOutcomeCode)
        }
    }
}

/// Reversing a perspective twice lands back on the original outcome.
pub proof fn lemma_rev_involution(o: Outcome)
    ensures
        o.spec_rev().spec_rev() == o,
{
}

} // verus!
