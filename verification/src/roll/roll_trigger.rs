//! The condition under which a special roll rule applies to a die.
use vstd::prelude::*;

verus! {

#[derive(Debug, Clone, Copy, PartialEq, Eq, Structural)]
pub enum RollTrigger {
    BelowMax(u8),
    GreaterThan(u8),
    Exactly(u8),
    LessThan(u8),
    AboveMin(u8),
}

} // verus!
