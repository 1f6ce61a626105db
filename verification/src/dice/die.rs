//! A single die with a number of faces.
use vstd::prelude::*;

use crate::error::ParseError;
use crate::text::{lemma_parse_u8_nat_str, nat_str, parse_u8, push_nat, spec_parse_u8, str_chars};

verus! {

#[derive(Clone, Copy, Debug, PartialEq, Eq, Structural)]
pub struct Die(pub u8);

/// `d` followed by the number of faces, e.g. `d20`.
pub open spec fn die_str(faces: u8) -> Seq<char> {
    seq!['d'] + nat_str(faces as nat)
}

/// What a die string denotes: `d` followed by the number of faces.
pub open spec fn spec_die_from_str(s: Seq<char>) -> Result<u8, ParseError> {
    if s.len() == 0 || s[0] != 'd' {
        Err(ParseError::MissingDiePrefix)
    } else {
        match spec_parse_u8(s.drop_first()) {
            Ok(faces) => Ok(faces),
            Err(kind) => Err(ParseError::InvalidDie(kind)),
        }
    }
}

/// Calls `rand::random_range` on the inclusive range `low..=high`: the thread-local
/// generator returns some value of the range. Which one is left open, as it rests
/// on chance; the call panics on an empty range, which `requires` rules out.
#[verifier::external_body]
fn random_in_range(low: u8, high: u8) -> (r: u8)
    requires
        low <= high,
    ensures
        low <= r <= high,
{
    rand::random_range(low..=high)
}

impl Die {
    pub fn new(faces: u8) -> (die: Die)
        ensures
            die.0 == faces,
    {
        Die(faces)
    }

    /// A face drawn at random, from 1 to the number of faces.
    pub fn roll(&self) -> (r: u8)
        requires
            self.0 >= 1,
        ensures
            1 <= r <= self.0,
    {
        random_in_range(1, self.0)
    }

    /// The die as it is displayed, e.g. `d6`.
    pub fn to_display_string(&self) -> (s: String)
        ensures
            s@ == die_str(self.0),
    {
        let mut s = String::new();
        s.push('d');
        push_nat(&mut s, self.0 as u64);
        s
    }

    /// Reads a die written as `d` followed by its number of faces, e.g. `d20`.
    pub fn from_str(s: &str) -> (r: Result<Die, ParseError>)
        ensures
            r == match spec_die_from_str(s@) {
                Ok(faces) => Ok(Die(faces)),
                Err(e) => Err(e),
            },
    {
        let cs = str_chars(s);
        if cs.len() == 0 || cs[0] != 'd' {
            return Err(ParseError::MissingDiePrefix);
        }
        let mut rest: Vec<char> = Vec::new();
        let mut i: usize = 1;
        while i < cs.len()
            invariant
                1 <= i <= cs.len(),
                rest@ == cs@.subrange(1, i as int),
            decreases cs.len() - i,
        {
            rest.push(cs[i]);
            i += 1;
        }
        assert(rest@ == cs@.drop_first());
        match parse_u8(rest.as_slice()) {
            Ok(faces) => Ok(Die(faces)),
            Err(kind) => Err(ParseError::InvalidDie(kind)),
        }
    }
}

impl Default for Die {
    /// The six-sided die.
    fn default() -> (die: Die)
        ensures
            die.0 == 6,
    {
        Die(6)
    }
}

impl std::str::FromStr for Die {
    type Err = ParseError;

    fn from_str(s: &str) -> (r: Result<Die, ParseError>)
        ensures
            r == match spec_die_from_str(s@) {
                Ok(faces) => Ok(Die(faces)),
                Err(e) => Err(e),
            },
    {
        Die::from_str(s)
    }
}

/// Reading back the text of a die gives back the die.
pub proof fn lemma_parse_displayed_die(faces: u8)
    ensures
        spec_die_from_str(die_str(faces)) == Ok::<u8, ParseError>(faces),
{
    lemma_parse_u8_nat_str(faces);
    assert(die_str(faces).drop_first() == nat_str(faces as nat));
}

} // verus!
