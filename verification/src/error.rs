use vstd::prelude::*;

verus! {

/// The ways a puzzle line can fail to parse.
#[derive(Clone, Copy, Debug, PartialEq, Eq, Structural)]
pub enum ParseError {
    /// A calibration line held no digit, spelled out or literal.
    NoDigits,
    /// A number was empty, held a non-digit, or exceeded `u32::MAX`.
    InvalidNumber,
    /// A cube declaration lacked the `count colour` shape.
    InvalidCube,
    /// A cube named a colour other than red, green or blue.
    InvalidColour,
    /// A game line lacked the `declaration: hands` shape.
    InvalidGame,
    /// A game declaration lacked an id after the first space.
    InvalidGameId,
    /// A card line did not split into declaration, winners and numbers.
    InvalidCard,
}

} // verus!
