//! A roll request: how many dice, of which kind, and what to add to them.
use vstd::prelude::*;

use super::roll_flags::RollFlags;
use crate::cli::roll_string::{parsed_command_as, RollString};
use crate::error::ParseError;
use super::roll_result::{result_str, RollResult};
use crate::dice::die::die_str;
use crate::dice::Die;
use crate::text::{nat_str, push_chars, push_nat, push_signed, signed_str};
use vstd::string::StringExecFns;

verus! {

#[derive(Clone, Debug, PartialEq, Eq)]
pub struct RollCommand {
    pub count: u8,
    pub die: Die,
    pub modifiers: Vec<i8>,
    pub flags: RollFlags,
}

/// The sum of the modifiers, as a mathematical integer.
pub open spec fn mods_total(mods: Seq<i8>) -> int
    decreases mods.len(),
{
    if mods.len() == 0 {
        0
    } else {
        mods_total(mods.drop_last()) + mods.last() as int
    }
}

/// Adding the modifiers one after the other never leaves the `i32` range.
pub open spec fn mods_partial_sums_fit(mods: Seq<i8>) -> bool {
    forall|k: int|
        0 <= k <= mods.len() ==> i32::MIN <= #[trigger] mods_total(mods.take(k)) <= i32::MAX
}

/// The net modifier: the sum of the modifiers, or `None` as soon as a running
/// sum leaves the `i32` range.
pub open spec fn spec_sum_mods(mods: Seq<i8>) -> Option<i32> {
    if mods_partial_sums_fit(mods) {
        Some(mods_total(mods) as i32)
    } else {
        None
    }
}

/// The modifiers as they are displayed: each with its sign, `+2-1+0`.
pub open spec fn mods_str(mods: Seq<i8>) -> Seq<char>
    decreases mods.len(),
{
    if mods.len() == 0 {
        seq![]
    } else {
        mods_str(mods.drop_last()) + signed_str(mods.last() as int)
    }
}

/// A command as it is displayed: count, die and modifiers, e.g. `3d8+2-1`.
pub open spec fn command_str(cmd: RollCommand) -> Seq<char> {
    nat_str(cmd.count as nat) + die_str(cmd.die.0) + mods_str(cmd.modifiers@)
}

/// The text that announces a roll and shows its result.
pub open spec fn report_str(cmd: RollCommand, result: RollResult) -> Seq<char> {
    seq!['R', 'o', 'l', 'l', 'i', 'n', 'g', ' '] + command_str(cmd) + seq!['.', '.', '.', '\n']
        + result_str(result) + seq!['\n']
}

/// The command that is rolled when none is given: one six-sided die, nothing added.
pub open spec fn is_default_command(cmd: RollCommand) -> bool {
    &&& cmd.count == 1
    &&& cmd.die.0 == 6
    &&& cmd.modifiers@.len() == 0
    &&& cmd.flags.is_empty()
}

/// The dice of the command can be rolled: there are none, or they have faces.
pub open spec fn can_roll(cmd: RollCommand) -> bool {
    cmd.count == 0 || cmd.die.0 >= 1
}

impl RollCommand {
    pub fn new(count: u8, die: Die, modifiers: &[i8], flags: RollFlags) -> (cmd: RollCommand)
        ensures
            cmd.count == count,
            cmd.die == die,
            cmd.modifiers@ == modifiers@,
            cmd.flags == flags,
    {
        RollCommand { count, die, modifiers: vstd::slice::slice_to_vec(modifiers), flags }
    }

    /// Rolls the dice and adds the modifiers.
    pub fn roll(&self) -> (result: RollResult)
        requires
            can_roll(*self),
        ensures
            result.is_result_of(*self),
    {
        RollResult::new(self)
    }

    /// The net modifier, or `None` when adding up the modifiers overflows an `i32`.
    pub(crate) fn sum_mods(&self) -> (net: Option<i32>)
        ensures
            net == spec_sum_mods(self.modifiers@),
    {
        let mods = self.modifiers.as_slice();
        let mut acc: i32 = 0;
        let mut i: usize = 0;
        assert(mods@.take(0) == Seq::<i8>::empty());
        while i < mods.len()
            invariant
                i <= mods.len(),
                mods@ == self.modifiers@,
                acc == mods_total(mods@.take(i as int)),
                forall|k: int|
                    0 <= k <= i ==> i32::MIN <= #[trigger] mods_total(mods@.take(k)) <= i32::MAX,
            decreases mods.len() - i,
        {
            assert(mods@.take(i + 1).drop_last() == mods@.take(i as int));
            let next: i64 = acc as i64 + mods[i] as i64;
            if next < i32::MIN as i64 || next > i32::MAX as i64 {
                assert(!(i32::MIN <= mods_total(mods@.take(i + 1)) <= i32::MAX));
                return None;
            }
            acc = next as i32;
            i += 1;
        }
        assert(mods@.take(mods.len() as int) == mods@);
        Some(acc)
    }

    /// The command as it is displayed, e.g. `3d8+2-1`.
    pub fn to_display_string(&self) -> (s: String)
        ensures
            s@ == command_str(*self),
    {
        let mut s = String::new();
        push_nat(&mut s, self.count as u64);
        s.push('d');
        push_nat(&mut s, self.die.0 as u64);
        let ghost head = s@;
        assert(head == nat_str(self.count as nat) + die_str(self.die.0));
        let mods = self.modifiers.as_slice();
        let mut i: usize = 0;
        while i < mods.len()
            invariant
                i <= mods.len(),
                mods@ == self.modifiers@,
                s@ == head + mods_str(mods@.take(i as int)),
            decreases mods.len() - i,
        {
            assert(mods@.take(i + 1).drop_last() == mods@.take(i as int));
            push_signed(&mut s, mods[i] as i64);
            i += 1;
        }
        assert(mods@.take(mods.len() as int) == mods@);
        s
    }

    /// What rolling the command prints: the command, then its result.
    pub fn report(&self, result: &RollResult) -> (s: String)
        ensures
            s@ == report_str(*self, *result),
    {
        let mut s = String::new();
        push_chars(&mut s, &['R', 'o', 'l', 'l', 'i', 'n', 'g', ' ']);
        let cmd = self.to_display_string();
        s.append(cmd.as_str());
        push_chars(&mut s, &['.', '.', '.', '\n']);
        let res = result.to_display_string();
        s.append(res.as_str());
        s.push('\n');
        s
    }
}

impl RollCommand {
    /// Reads a command written as `[count]['d'size][('+'/'-')modifier]*`, eg `"3d8+2-1"`.
    /// A missing count is 1, a missing die is a `d6`.
    pub fn from_str(s: &str) -> (r: Result<RollCommand, ParseError>)
        ensures
            parsed_command_as(r, s@),
    {
        let roll_string = RollString::from_str(s)?;
        roll_string.parse()
    }
}

impl std::str::FromStr for RollCommand {
    type Err = ParseError;

    fn from_str(s: &str) -> (r: Result<RollCommand, ParseError>)
        ensures
            parsed_command_as(r, s@),
    {
        RollCommand::from_str(s)
    }
}

impl Default for RollCommand {
    /// One six-sided die, nothing added, no special rule.
    fn default() -> (cmd: RollCommand)
        ensures
            is_default_command(cmd),
    {
        RollCommand::new(1, Die::default(), &[], RollFlags::default())
    }
}

/// No modifiers net nothing.
pub proof fn lemma_no_modifiers_net_zero()
    ensures
        spec_sum_mods(Seq::<i8>::empty()) == Some(0i32),
{
    assert(Seq::<i8>::empty().take(0) == Seq::<i8>::empty());
}

/// One more modifier adds its value to the net modifier, whatever comes before
/// it: the net modifier is the plain sum of the modifiers, as long as each
/// running sum fits in an `i32`, and unknown from the first that does not.
pub proof fn lemma_modifier_adds_to_net(ms: Seq<i8>, m: i8)
    ensures
        spec_sum_mods(ms) is Some && i32::MIN <= spec_sum_mods(ms)->0 + m <= i32::MAX
            ==> spec_sum_mods(ms.push(m)) == Some((spec_sum_mods(ms)->0 + m) as i32),
        spec_sum_mods(ms) is Some && !(i32::MIN <= spec_sum_mods(ms)->0 + m <= i32::MAX)
            ==> spec_sum_mods(ms.push(m)) is None,
        spec_sum_mods(ms) is None ==> spec_sum_mods(ms.push(m)) is None,
{
    let longer = ms.push(m);
    assert(longer.drop_last() == ms);
    assert(longer.take(longer.len() as int) == longer);
    assert forall|k: int| 0 <= k <= ms.len() implies #[trigger] longer.take(k) == ms.take(k) by {}
    if mods_partial_sums_fit(ms) {
        assert(ms.take(ms.len() as int) == ms);
        if i32::MIN <= mods_total(ms) + m <= i32::MAX {
            assert forall|k: int| 0 <= k <= longer.len() implies i32::MIN <= #[trigger] mods_total(
                longer.take(k),
            ) <= i32::MAX by {
                if k <= ms.len() {
                    assert(longer.take(k) == ms.take(k));
                }
            }
        } else {
            assert(!(i32::MIN <= mods_total(longer.take(longer.len() as int)) <= i32::MAX));
        }
    } else {
        let k = choose|k: int|
            0 <= k <= ms.len() && !(i32::MIN <= #[trigger] mods_total(ms.take(k)) <= i32::MAX);
        assert(longer.take(k) == ms.take(k));
    }
}

} // verus!
