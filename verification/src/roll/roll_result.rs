//! The outcome of a roll: the dice, the modifiers and the total.
use vstd::prelude::*;

use super::roll_command::{spec_sum_mods, RollCommand};
use crate::dice::dice_tray::{is_tray_of, lemma_rolls_total_bounds, rolls_total};
use crate::dice::DiceTray;
use crate::text::{
    int_str, ints_of, list_str, nat_str, overflow_str, push_chars, push_int, push_list, push_nat,
    push_overflow, push_signed, signed_str,
};

verus! {

#[derive(Debug)]
pub struct RollResult {
    pub dice_tray: DiceTray,
    pub modifiers: Vec<i8>,
    pub net_modifier: Option<i32>,
    pub result: Option<i64>,
}

/// The total of a roll: the dice plus the net modifier, where both are known.
pub open spec fn spec_combine(sum: Option<u32>, net: Option<i32>) -> Option<i64> {
    match (sum, net) {
        (Some(a), Some(b)) => Some((a + b) as i64),
        _ => None,
    }
}

/// A result as it is displayed:
/// `total`, then `> Rolled sum: [rolls]`, then `> net: [modifiers]`.
pub open spec fn result_str(r: RollResult) -> Seq<char> {
    let total = match r.result {
        Some(v) => int_str(v as int),
        None => overflow_str(),
    };
    let sum = match r.dice_tray.sum {
        Some(v) => nat_str(v as nat),
        None => overflow_str(),
    };
    let net = match r.net_modifier {
        Some(v) => signed_str(v as int),
        None => overflow_str(),
    };
    total + seq!['\n', '>', ' ', 'R', 'o', 'l', 'l', 'e', 'd', ' '] + sum + seq![':', ' ']
        + list_str(ints_of(r.dice_tray.rolls@)) + seq!['\n', '>', ' '] + net + seq![':', ' ']
        + list_str(ints_of(r.modifiers@))
}

impl RollResult {
    /// `self` is what `cmd` yields once its dice show the faces in `self.dice_tray`.
    pub open spec fn is_assembled_from(self, cmd: RollCommand, tray: DiceTray) -> bool {
        &&& self.dice_tray == tray
        &&& self.modifiers@ == cmd.modifiers@
        &&& self.net_modifier == spec_sum_mods(cmd.modifiers@)
        &&& self.result == spec_combine(tray.sum, self.net_modifier)
    }

    /// `self` is a possible outcome of rolling `cmd`.
    pub open spec fn is_result_of(self, cmd: RollCommand) -> bool {
        &&& is_tray_of(cmd.die, cmd.count, self.dice_tray)
        &&& self.is_assembled_from(cmd, self.dice_tray)
    }

    /// Rolls the dice of `cmd` and adds its modifiers.
    pub(crate) fn new(cmd: &RollCommand) -> (r: RollResult)
        requires
            cmd.count == 0 || cmd.die.0 >= 1,
        ensures
            r.is_result_of(*cmd),
    {
        let dice_tray = DiceTray::new(cmd.die, cmd.count);
        RollResult::assemble(cmd, dice_tray)
    }

    /// Adds the modifiers of `cmd` to dice that have been rolled.
    pub fn assemble(cmd: &RollCommand, dice_tray: DiceTray) -> (r: RollResult)
        ensures
            r.is_assembled_from(*cmd, dice_tray),
    {
        let modifiers = vstd::slice::slice_to_vec(cmd.modifiers.as_slice());
        let net_modifier = cmd.sum_mods();
        let result: Option<i64> = match (dice_tray.sum, net_modifier) {
            (Some(a), Some(b)) => Some(a as i64 + b as i64),
            _ => None,
        };
        RollResult { dice_tray, modifiers, net_modifier, result }
    }

    /// The result as it is displayed.
    pub fn to_display_string(&self) -> (s: String)
        ensures
            s@ == result_str(*self),
    {
        let mut s = String::new();
        match self.result {
            Some(v) => push_int(&mut s, v),
            None => push_overflow(&mut s),
        }
        push_chars(&mut s, &['\n', '>', ' ', 'R', 'o', 'l', 'l', 'e', 'd', ' ']);
        match self.dice_tray.sum {
            Some(v) => push_nat(&mut s, v as u64),
            None => push_overflow(&mut s),
        }
        push_chars(&mut s, &[':', ' ']);
        push_list(&mut s, self.dice_tray.rolls.as_slice());
        push_chars(&mut s, &['\n', '>', ' ']);
        match self.net_modifier {
            Some(v) => push_signed(&mut s, v as i64),
            None => push_overflow(&mut s),
        }
        push_chars(&mut s, &[':', ' ']);
        push_list(&mut s, self.modifiers.as_slice());
        s
    }
}

/// Whatever the dice show, a roll of `count` dice with `faces` faces and a net
/// modifier `net` totals between `count + net` and `count * faces + net`, and
/// the dice alone never overflow.
pub proof fn lemma_roll_total_bounds(cmd: RollCommand, r: RollResult)
    requires
        r.is_result_of(cmd),
        r.net_modifier is Some,
    ensures
        r.dice_tray.sum == Some(rolls_total(r.dice_tray.rolls@) as u32),
        r.result is Some,
        r.result->0 == rolls_total(r.dice_tray.rolls@) + r.net_modifier->0,
        cmd.count + r.net_modifier->0 <= r.result->0 <= cmd.count * cmd.die.0
            + r.net_modifier->0,
{
    lemma_rolls_total_bounds(r.dice_tray.rolls@, cmd.die.0);
    let n = cmd.count as int;
    let f = cmd.die.0 as int;
    assert(n * f <= 255 * 255) by (nonlinear_arith)
        requires
            0 <= n <= 255,
            0 <= f <= 255,
    ;
}

} // verus!
