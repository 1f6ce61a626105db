//! Why a roll string was refused.
use vstd::prelude::*;

verus! {

/// Why a string is not an integer of the wanted type, as `str::parse` tells it.
#[derive(Clone, Copy, Debug, PartialEq, Eq, Structural)]
pub enum IntErrorKind {
    /// The string is empty.
    Empty,
    /// A character is not a digit where a digit is due: a sign on its own or in
    /// the middle, or any other character.
    InvalidDigit,
    /// The number is too large for the type.
    PosOverflow,
    /// The number is too small for the type.
    NegOverflow,
}

#[derive(Clone, Debug, PartialEq, Eq)]
pub enum ParseError {
    /// Something is left over once the count, the die and the modifiers
    /// have been read: the input is not of the form `[count]d[die]+/-[modifiers]`.
    /// Holds the input and the three parts that were read from it.
    Unrecognized { input: String, count: String, die: String, mods: String },
    /// The count is not a number from 0 to 255.
    InvalidCount(IntErrorKind),
    /// The die's size is not a number from 0 to 255.
    InvalidDie(IntErrorKind),
    /// A modifier is not a sign followed by a number from -128 to 127.
    InvalidModifier(IntErrorKind),
    /// A die string does not start with `d`.
    MissingDiePrefix,
}

} // verus!
