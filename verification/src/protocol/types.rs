//! The value that the consensus rounds agree on.

use vstd::prelude::*;
use vstd::string::StringExecFns;

verus! {

/// A node's preference: one of the two colours, or none yet.
#[derive(Debug, Clone, Copy, Hash, PartialEq, Eq, Structural)]
pub enum Colour {
    Undecided,
    Red,
    Blue,
}

/// The name of a colour.
pub open spec fn colour_word(colour: Colour) -> Seq<char> {
    match colour {
        Colour::Undecided => "Undecided"@,
        Colour::Red => "Red"@,
        Colour::Blue => "Blue"@,
    }
}

impl Colour {
    /// The name of the colour.
    pub fn name(&self) -> (text: String)
        ensures
            text@ == colour_word(*self),
    {
        match self {
            Colour::Undecided => String::from_str("Undecided"),
            Colour::Red => String::from_str("Red"),
            Colour::Blue => String::from_str("Blue"),
        }
    }
}

} // verus!
