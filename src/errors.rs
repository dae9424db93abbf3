//! The two kinds of failure: malformed term text, and a term that is
//! structurally invalid.

use vstd::prelude::*;

verus! {

/// A term of the expression does not have the shape of a die term.
#[derive(Debug, Clone, Copy, PartialEq, Eq, Structural)]
pub enum ParsingError {
    WrongFormat,
}

/// A term would have no eyes or would count no dice.
#[derive(Debug, Clone, Copy, PartialEq, Eq, Structural)]
pub enum StructureError {
    ZeroEyes,
    ZeroCount,
    InvalidEyes,
    InvalidCount,
}

/// Either kind of failure that reading an expression can end in.
#[derive(Debug, Clone, Copy, PartialEq, Eq, Structural)]
pub enum DiceError {
    Parsing(ParsingError),
    Structure(StructureError),
}

impl ParsingError {
    /// A sentence that describes the failure.
    pub open spec fn text(&self) -> Seq<char> {
        match self {
            ParsingError::WrongFormat => "The dice format is not correct."@,
        }
    }

    pub fn message(&self) -> (r: &'static str)
        ensures
            r@ == self.text(),
    {
        match self {
            ParsingError::WrongFormat => "The dice format is not correct.",
        }
    }
}

impl StructureError {
    /// A sentence that describes the failure.
    pub open spec fn text(&self) -> Seq<char> {
        match self {
            StructureError::ZeroCount => "One of the dice has a count of zero"@,
            StructureError::ZeroEyes => "One of the dice has zero eyes"@,
            StructureError::InvalidCount => "One of the dice has an invalid count"@,
            StructureError::InvalidEyes => "One of the dice has an invalid amount of eyes"@,
        }
    }

    pub fn message(&self) -> (r: &'static str)
        ensures
            r@ == self.text(),
    {
        match self {
            StructureError::ZeroCount => "One of the dice has a count of zero",
            StructureError::ZeroEyes => "One of the dice has zero eyes",
            StructureError::InvalidCount => "One of the dice has an invalid count",
            StructureError::InvalidEyes => "One of the dice has an invalid amount of eyes",
        }
    }
}

impl DiceError {
    /// A sentence that describes the failure.
    pub open spec fn text(&self) -> Seq<char> {
        match self {
            DiceError::Parsing(e) => e.text(),
            DiceError::Structure(e) => e.text(),
        }
    }

    pub fn message(&self) -> (r: &'static str)
        ensures
            r@ == self.text(),
    {
        match self {
            DiceError::Parsing(e) => e.message(),
            DiceError::Structure(e) => e.message(),
        }
    }
}

} // verus!
