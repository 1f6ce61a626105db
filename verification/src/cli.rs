//! The command line: the roll commands given, and what rolling them prints.
pub mod roll_string;

pub use roll_string::RollString;

use vstd::prelude::*;

use crate::roll::roll_command::{can_roll, is_default_command, report_str};
use crate::roll::{RollCommand, RollResult};
use vstd::string::StringExecFns;

verus! {

/// A command-line dice roller
#[derive(Debug)]
pub struct Cli {
    /// [`count`] [d `die`] [+ | - `mod`]* ...
    ///
    /// e.g. 8d6-1+3 2d4+2+0-1 5 +2 d100 ...
    /// default: 1d6+0
    pub roll_cmds: Option<Vec<RollCommand>>,
}

/// What rolling the commands one after the other prints, when they come out as `results`.
pub open spec fn transcript(cmds: Seq<RollCommand>, results: Seq<RollResult>) -> Seq<char>
    decreases cmds.len(),
{
    if cmds.len() == 0 || results.len() == 0 {
        seq![]
    } else {
        transcript(cmds.drop_last(), results.drop_last()) + report_str(cmds.last(), results.last())
    }
}

/// Each result is a possible outcome of the command at the same place.
pub open spec fn are_results_of(results: Seq<RollResult>, cmds: Seq<RollCommand>) -> bool {
    &&& results.len() == cmds.len()
    &&& forall|k: int| 0 <= k < cmds.len() ==> (#[trigger] results[k]).is_result_of(cmds[k])
}

impl Cli {
    /// The commands that `run` rolls stand for these: the ones given, or else
    /// the default command alone.
    pub open spec fn rolls_commands(self, cmds: Seq<RollCommand>) -> bool {
        match self.roll_cmds {
            Some(v) => cmds == v@,
            None => cmds.len() == 1 && is_default_command(cmds[0]),
        }
    }

    /// Every command given can be rolled.
    pub open spec fn can_run(self) -> bool {
        match self.roll_cmds {
            Some(v) => forall|k: int| 0 <= k < v@.len() ==> can_roll(#[trigger] v@[k]),
            None => true,
        }
    }

    /// Rolls each command given, or the default `1d6` when none is, and returns
    /// what is printed: each command announced, then its result.
    pub fn run(&self) -> (out: String)
        requires
            self.can_run(),
        ensures
            exists|cmds: Seq<RollCommand>, results: Seq<RollResult>|
                #![trigger transcript(cmds, results)]
                self.rolls_commands(cmds) && are_results_of(results, cmds) && out@ == transcript(
                    cmds,
                    results,
                ),
    {
        let mut out = String::new();
        match &self.roll_cmds {
            Some(roll_cmds) => {
                let ghost mut results: Seq<RollResult> = seq![];
                let mut i: usize = 0;
                while i < roll_cmds.len()
                    invariant
                        i <= roll_cmds.len(),
                        forall|k: int| 0 <= k < roll_cmds@.len() ==> can_roll(#[trigger] roll_cmds@[k]),
                        are_results_of(results, roll_cmds@.take(i as int)),
                        out@ == transcript(roll_cmds@.take(i as int), results),
                    decreases roll_cmds.len() - i,
                {
                    let cmd = &roll_cmds[i];
                    assert(can_roll(roll_cmds@[i as int]));
                    let result = cmd.roll();
                    let report = cmd.report(&result);
                    out.append(report.as_str());
                    let ghost old_results = results;
                    proof {
                        results = results.push(result);
                    }
                    i += 1;
                    assert(roll_cmds@.take(i as int).drop_last() == roll_cmds@.take(i - 1));
                    assert(results.drop_last() == old_results);
                    assert(are_results_of(results, roll_cmds@.take(i as int))) by {
                        assert forall|k: int| 0 <= k < i implies (
                        #[trigger] results[k]).is_result_of(roll_cmds@.take(i as int)[k]) by {
                            if k < i - 1 {
                                assert(results[k] == old_results[k]);
                                assert(roll_cmds@.take(i as int)[k] == roll_cmds@.take(i - 1)[k]);
                            }
                        }
                    }
                }
                assert(roll_cmds@.take(roll_cmds.len() as int) == roll_cmds@);
                assert(self.rolls_commands(roll_cmds@));
                assert(transcript(roll_cmds@, results) == out@);
            },
            None => {
                let cmd = RollCommand::default();
                let result = cmd.roll();
                let report = cmd.report(&result);
                out.append(report.as_str());
                let ghost cmds = seq![cmd];
                let ghost results = seq![result];
                assert(cmds.drop_last() == Seq::<RollCommand>::empty());
                assert(results.drop_last() == Seq::<RollResult>::empty());
                assert(self.rolls_commands(cmds));
                assert(are_results_of(results, cmds));
                assert(transcript(cmds.drop_last(), results.drop_last()) == Seq::<char>::empty());
                assert(transcript(cmds, results) == out@);
            },
        }
        out
    }
}

} // verus!
