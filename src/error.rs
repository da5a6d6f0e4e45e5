use vstd::prelude::*;

verus! {

/// Everything that can go wrong while building a table or translating a message.
#[derive(Debug, Clone, Copy, PartialEq, Eq, Structural)]
pub enum PinError {
    /// The configuration text does not have the shape "digit: list of characters".
    Parse,
    /// A configured digit lies outside 0..=9.
    InvalidDigit(u32),
    /// A character is assigned more than once.
    DuplicateCharacter(char),
    /// A message character has no entry in the table.
    UnknownCharacter(char),
}

} // verus!
