//! A rule that turns a tray of rolled dice into another one.
use vstd::prelude::*;

use crate::dice::DiceTray;

verus! {

#[allow(dead_code)]
trait RollSpecial {
    fn roll_special(tray: DiceTray) -> DiceTray;
}

} // verus!
