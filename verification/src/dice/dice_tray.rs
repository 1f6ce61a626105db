//! A handful of dice of one kind, rolled together.
use vstd::prelude::*;

use super::die::{die_str, Die};
use crate::text::{ints_of, list_str, nat_str, overflow_str, push_list, push_nat, push_overflow};

verus! {

#[derive(Debug)]
pub struct DiceTray {
    pub die: Die,
    pub count: u8,
    pub rolls: Vec<u8>,
    pub sum: Option<u32>,
}

/// The total of the rolls, as a mathematical integer.
pub open spec fn rolls_total(rolls: Seq<u8>) -> nat
    decreases rolls.len(),
{
    if rolls.len() == 0 {
        0
    } else {
        rolls_total(rolls.drop_last()) + rolls.last() as nat
    }
}

/// The total of the rolls where it fits in a `u32`, `None` where it does not.
pub open spec fn spec_sum_rolls(rolls: Seq<u8>) -> Option<u32> {
    if rolls_total(rolls) <= u32::MAX {
        Some(rolls_total(rolls) as u32)
    } else {
        None
    }
}

/// Every roll shows a face of a die with `faces` faces.
pub open spec fn rolls_in_range(rolls: Seq<u8>, faces: u8) -> bool {
    forall|i: int| 0 <= i < rolls.len() ==> 1 <= #[trigger] rolls[i] <= faces
}

/// `tray` is a possible outcome of rolling `count` dice like `die`.
pub open spec fn is_tray_of(die: Die, count: u8, tray: DiceTray) -> bool {
    &&& tray.die == die
    &&& tray.count == count
    &&& tray.rolls@.len() == count
    &&& rolls_in_range(tray.rolls@, die.0)
    &&& tray.sum == spec_sum_rolls(tray.rolls@)
}

/// A tray as it is displayed: `d6: 7 [3, 4]`.
pub open spec fn tray_str(tray: DiceTray) -> Seq<char> {
    let total = match tray.sum {
        Some(v) => nat_str(v as nat),
        None => overflow_str(),
    };
    die_str(tray.die.0) + seq![':', ' '] + total + seq![' '] + list_str(ints_of(tray.rolls@))
}

/// `n` faces of a die with `faces` faces add up to at least `n` and at most `n * faces`.
pub proof fn lemma_rolls_total_bounds(rolls: Seq<u8>, faces: u8)
    requires
        rolls_in_range(rolls, faces),
    ensures
        rolls.len() <= rolls_total(rolls) <= rolls.len() * faces,
    decreases rolls.len(),
{
    if rolls.len() > 0 {
        let init = rolls.drop_last();
        assert(rolls_in_range(init, faces)) by {
            assert forall|i: int| 0 <= i < init.len() implies 1 <= #[trigger] init[i] <= faces by {
                assert(init[i] == rolls[i]);
            }
        }
        lemma_rolls_total_bounds(init, faces);
        assert(1 <= rolls[rolls.len() - 1] <= faces);
        let n = init.len();
        assert(n * faces + faces == (n + 1) * faces) by (nonlinear_arith);
    }
}

impl DiceTray {
    /// Rolls `count` dice like `die` and adds them up.
    pub fn new(die: Die, count: u8) -> (tray: DiceTray)
        requires
            count == 0 || die.0 >= 1,
        ensures
            is_tray_of(die, count, tray),
            count <= rolls_total(tray.rolls@) <= count * die.0,
            tray.sum == Some(rolls_total(tray.rolls@) as u32),
    {
        let mut rolls: Vec<u8> = Vec::new();
        let mut i: u8 = 0;
        while i < count
            invariant
                i <= count,
                count == 0 || die.0 >= 1,
                rolls@.len() == i,
                rolls_in_range(rolls@, die.0),
            decreases count - i,
        {
            let r = die.roll();
            rolls.push(r);
            i += 1;
        }
        let sum = Self::sum_rolls(rolls.as_slice());
        proof {
            lemma_rolls_total_bounds(rolls@, die.0);
            let n = count as int;
            let f = die.0 as int;
            assert(n * f <= 255 * 255) by (nonlinear_arith)
                requires
                    0 <= n <= 255,
                    0 <= f <= 255,
            ;
        }
        DiceTray { die, count, rolls, sum }
    }

    /// Adds up the rolls, or `None` when the total does not fit in a `u32`.
    fn sum_rolls(rolls: &[u8]) -> (sum: Option<u32>)
        ensures
            sum == spec_sum_rolls(rolls@),
    {
        // The running total, saturated one above `u32::MAX`: once past the
        // bound it stays past, since no roll is negative.
        let cap: u64 = 0x1_0000_0000;
        let mut acc: u64 = 0;
        let mut i: usize = 0;
        while i < rolls.len()
            invariant
                i <= rolls.len(),
                cap == 0x1_0000_0000,
                acc == if rolls_total(rolls@.take(i as int)) < cap {
                    rolls_total(rolls@.take(i as int))
                } else {
                    cap as nat
                },
            decreases rolls.len() - i,
        {
            assert(rolls@.take(i + 1).drop_last() == rolls@.take(i as int));
            acc = acc + rolls[i] as u64;
            if acc > cap {
                acc = cap;
            }
            i += 1;
        }
        assert(rolls@.take(rolls.len() as int) == rolls@);
        if acc < cap {
            Some(acc as u32)
        } else {
            None
        }
    }

    /// The tray as it is displayed, e.g. `d6: 7 [3, 4]`.
    pub fn to_display_string(&self) -> (s: String)
        ensures
            s@ == tray_str(*self),
    {
        let mut s = self.die.to_display_string();
        s.push(':');
        s.push(' ');
        match self.sum {
            Some(v) => push_nat(&mut s, v as u64),
            None => push_overflow(&mut s),
        }
        s.push(' ');
        push_list(&mut s, self.rolls.as_slice());
        s
    }
}

} // verus!
