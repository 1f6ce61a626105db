//! The special rules a roll may ask for.
use vstd::prelude::*;

use super::roll_trigger::RollTrigger;

verus! {

#[derive(Debug, Clone, Copy, PartialEq, Eq, Structural)]
pub struct RollFlags {
    drop: Option<DropFlag>,
    explode: Option<ExplodeFlag>,
    substitute: Option<SubstituteFlag>,
}

#[derive(Debug, Clone, Copy, PartialEq, Eq, Structural)]
pub enum DropFlag {
    DropHighest(RollTrigger),
    DropLowest(RollTrigger),
}

#[derive(Debug, Clone, Copy, PartialEq, Eq, Structural)]
pub struct ExplodeFlag;

#[derive(Debug, Clone, Copy, PartialEq, Eq, Structural)]
pub enum SubstituteFlag {
    ReRoll(RollTrigger),
    Ceiling(RollTrigger),
    Floor(RollTrigger),
}

impl RollFlags {
    pub closed spec fn drop_flag(self) -> Option<DropFlag> {
        self.drop
    }

    pub closed spec fn explode_flag(self) -> Option<ExplodeFlag> {
        self.explode
    }

    pub closed spec fn substitute_flag(self) -> Option<SubstituteFlag> {
        self.substitute
    }

    /// No special rule at all.
    pub open spec fn is_empty(self) -> bool {
        &&& self.drop_flag() is None
        &&& self.explode_flag() is None
        &&& self.substitute_flag() is None
    }

    pub fn new(
        drop: Option<DropFlag>,
        explode: Option<ExplodeFlag>,
        substitute: Option<SubstituteFlag>,
    ) -> (flags: RollFlags)
        ensures
            flags.drop_flag() == drop,
            flags.explode_flag() == explode,
            flags.substitute_flag() == substitute,
    {
        RollFlags { drop, explode, substitute }
    }
}

impl Default for RollFlags {
    /// Returns a set of empty flags
    fn default() -> (flags: RollFlags)
        ensures
            flags.is_empty(),
    {
        RollFlags::new(None, None, None)
    }
}

} // verus!
