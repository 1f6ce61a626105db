//! Splitting a roll string into its count, die and modifier parts, and reading
//! those parts into a [`RollCommand`].
use vstd::prelude::*;

use crate::dice::Die;
use crate::error::{IntErrorKind, ParseError};
use crate::roll::roll_flags::RollFlags;
use crate::roll::RollCommand;
use crate::roll::roll_command::{command_str, mods_str};
use crate::text::{
    all_digits, chars_to_string, is_ascii_digit, is_digit, is_sign, is_sign_char,
    lemma_nat_str, lemma_parse_i8_signed_str, lemma_parse_u8_nat_str, nat_str, parse_i8,
    lemma_scan_padded, parse_u8, signed_str, spec_parse_i8, spec_parse_u8, str_chars, zeros,
};

verus! {

pub struct RollString {
    count: String,
    die: String,
    mods: String,
}

impl View for RollString {
    type V = (Seq<char>, Seq<char>, Seq<char>);

    /// The count, die and modifier parts, in that order.
    closed spec fn view(&self) -> (Seq<char>, Seq<char>, Seq<char>) {
        (self.count@, self.die@, self.mods@)
    }
}

/// A character that may stand in the count: a digit.
pub open spec fn count_ok() -> spec_fn(Seq<char>, int) -> bool {
    |s: Seq<char>, i: int| is_digit(s[i])
}

/// A character that may stand in the die part: a `d` first, digits after.
pub open spec fn die_ok() -> spec_fn(Seq<char>, int) -> bool {
    |s: Seq<char>, i: int| (i == 0 && s[i] == 'd') || is_digit(s[i])
}

/// A character that may stand in the modifiers: a digit, or a sign that does
/// not follow another sign.
pub open spec fn mods_ok() -> spec_fn(Seq<char>, int) -> bool {
    |s: Seq<char>, i: int| is_digit(s[i]) || (is_sign(s[i]) && (i == 0 || !is_sign(s[i - 1])))
}

/// The end of the run of characters accepted by `ok` that starts at `i`.
pub open spec fn run_end(s: Seq<char>, i: int, ok: spec_fn(Seq<char>, int) -> bool) -> int
    decreases s.len() - i,
{
    if 0 <= i < s.len() && ok(s, i) {
        run_end(s, i + 1, ok)
    } else {
        i
    }
}

/// The parts a roll string falls into: the leading digits (count), then a `d`
/// with its digits (die), then signs and digits (modifiers), then whatever is left.
pub open spec fn split_roll_str(s: Seq<char>) -> (Seq<char>, Seq<char>, Seq<char>, Seq<char>) {
    let c = run_end(s, 0, count_ok());
    let r1 = s.skip(c);
    let d = run_end(r1, 0, die_ok());
    let r2 = r1.skip(d);
    let m = run_end(r2, 0, mods_ok());
    (s.take(c), r1.take(d), r2.take(m), r2.skip(m))
}

/// The parts of a roll string, where nothing is left over.
pub open spec fn spec_roll_string(s: Seq<char>) -> Option<(Seq<char>, Seq<char>, Seq<char>)> {
    let (c, d, m, rest) = split_roll_str(s);
    if rest.len() == 0 {
        Some((c, d, m))
    } else {
        None
    }
}

/// `e` reports that `s` is left over with, read from it, the parts `c`, `d` and `m`.
pub open spec fn is_unrecognized(
    e: ParseError,
    s: Seq<char>,
    c: Seq<char>,
    d: Seq<char>,
    m: Seq<char>,
) -> bool {
    e matches ParseError::Unrecognized { input, count, die, mods } && input@ == s && count@ == c
        && die@ == d && mods@ == m
}

/// `r` is what splitting `s` gives: its parts where nothing is left over, else
/// the error that shows the input and the parts.
pub open spec fn split_as(r: Result<RollString, ParseError>, s: Seq<char>) -> bool {
    let (c, d, m, rest) = split_roll_str(s);
    if rest.len() == 0 {
        r matches Ok(rs) && rs@ == (c, d, m)
    } else {
        r matches Err(e) && is_unrecognized(e, s, c, d, m)
    }
}

/// The modifier part cut before each sign: `+10-20` gives `+10` and `-20`.
pub open spec fn split_mods(s: Seq<char>) -> Seq<Seq<char>>
    decreases s.len(),
{
    if s.len() == 0 {
        seq![]
    } else {
        let prev = split_mods(s.drop_last());
        let c = s.last();
        if prev.len() == 0 {
            seq![seq![c]]
        } else if !is_digit(c) {
            prev.push(seq![c])
        } else {
            prev.update(prev.len() - 1, prev.last().push(c))
        }
    }
}

/// Reads the pieces in order; the first that is not an `i8` decides the error.
pub open spec fn parse_pieces(pieces: Seq<Seq<char>>) -> Result<Seq<i8>, IntErrorKind>
    decreases pieces.len(),
{
    if pieces.len() == 0 {
        Ok(seq![])
    } else {
        match parse_pieces(pieces.drop_last()) {
            Err(e) => Err(e),
            Ok(vs) => match spec_parse_i8(pieces.last()) {
                Ok(v) => Ok(vs.push(v)),
                Err(e) => Err(e),
            },
        }
    }
}

/// The modifiers that a modifier part denotes.
pub open spec fn spec_parse_mods(m: Seq<char>) -> Result<Seq<i8>, IntErrorKind> {
    parse_pieces(split_mods(m))
}

/// The count, the faces and the modifiers that the parts denote: a missing count
/// is 1 and a missing die has 6 faces. The count is read first, then the die,
/// then the modifiers; the first that fails decides the error.
pub open spec fn spec_parse_parts(parts: (Seq<char>, Seq<char>, Seq<char>)) -> Result<
    (u8, u8, Seq<i8>),
    ParseError,
> {
    let (c, d, m) = parts;
    let count = if c.len() == 0 {
        Ok(1u8)
    } else {
        spec_parse_u8(c)
    };
    let faces = if d.len() == 0 {
        Ok(6u8)
    } else {
        spec_parse_u8(d.drop_first())
    };
    match count {
        Err(kind) => Err(ParseError::InvalidCount(kind)),
        Ok(n) => match faces {
            Err(kind) => Err(ParseError::InvalidDie(kind)),
            Ok(f) => match spec_parse_mods(m) {
                Err(kind) => Err(ParseError::InvalidModifier(kind)),
                Ok(ms) => Ok((n, f, ms)),
            },
        },
    }
}

/// `cmd` rolls `count` dice with `faces` faces and adds `mods`, with no special rule.
pub open spec fn command_is(cmd: RollCommand, count: u8, faces: u8, mods: Seq<i8>) -> bool {
    &&& cmd.count == count
    &&& cmd.die.0 == faces
    &&& cmd.modifiers@ == mods
    &&& cmd.flags.is_empty()
}

/// `r` is what parsing gives when the spec says `expected`.
pub open spec fn parsed_as(
    r: Result<RollCommand, ParseError>,
    expected: Result<(u8, u8, Seq<i8>), ParseError>,
) -> bool {
    match expected {
        Ok((n, f, ms)) => r matches Ok(cmd) && command_is(cmd, n, f, ms),
        Err(e) => r == Err::<RollCommand, ParseError>(e),
    }
}

/// `r` is what parsing the roll string `s` gives: the reading of its parts, or
/// the error that shows what is left over.
pub open spec fn parsed_command_as(r: Result<RollCommand, ParseError>, s: Seq<char>) -> bool {
    let (c, d, m, rest) = split_roll_str(s);
    if rest.len() == 0 {
        parsed_as(r, spec_parse_parts((c, d, m)))
    } else {
        r matches Err(e) && is_unrecognized(e, s, c, d, m)
    }
}

/// The characters of `v` before `at`, and those from `at` on.
fn split_chars(v: &[char], at: usize) -> (r: (Vec<char>, Vec<char>))
    requires
        at <= v.len(),
    ensures
        r.0@ == v@.take(at as int),
        r.1@ == v@.skip(at as int),
{
    let mut head: Vec<char> = Vec::new();
    let mut tail: Vec<char> = Vec::new();
    let mut i: usize = 0;
    while i < v.len()
        invariant
            i <= v.len(),
            at <= v.len(),
            head@ == v@.take(if i < at { i as int } else { at as int }),
            tail@ == if i < at { Seq::<char>::empty() } else { v@.subrange(at as int, i as int) },
        decreases v.len() - i,
    {
        if i < at {
            head.push(v[i]);
        } else {
            tail.push(v[i]);
        }
        i += 1;
    }
    (head, tail)
}

impl RollString {
    /// Splits a roll string `[count]d[die]+/-[modifiers]` into its three parts.
    /// Each part may be empty; anything left over is an error.
    pub fn from_str(s: &str) -> (r: Result<RollString, ParseError>)
        ensures
            split_as(r, s@),
    {
        let cs = str_chars(s);
        let c = Self::get_count(cs.as_slice());
        let (count, rest1) = split_chars(cs.as_slice(), c);
        let d = Self::get_die(rest1.as_slice());
        let (die, rest2) = split_chars(rest1.as_slice(), d);
        let m = Self::get_mods(rest2.as_slice());
        let (mods, rest3) = split_chars(rest2.as_slice(), m);
        if rest3.len() == 0 {
            Ok(
                RollString {
                    count: chars_to_string(count.as_slice()),
                    die: chars_to_string(die.as_slice()),
                    mods: chars_to_string(mods.as_slice()),
                },
            )
        } else {
            Err(
                ParseError::Unrecognized {
                    input: chars_to_string(cs.as_slice()),
                    count: chars_to_string(count.as_slice()),
                    die: chars_to_string(die.as_slice()),
                    mods: chars_to_string(mods.as_slice()),
                },
            )
        }
    }

    /// Reads the parts into a command.
    pub fn parse(&self) -> (r: Result<RollCommand, ParseError>)
        ensures
            parsed_as(r, spec_parse_parts(self@)),
    {
        let count = match self.parse_count() {
            Ok(n) => n,
            Err(kind) => return Err(ParseError::InvalidCount(kind)),
        };
        let die = match self.parse_die() {
            Ok(d) => d,
            Err(kind) => return Err(ParseError::InvalidDie(kind)),
        };
        let modifiers = match self.parse_mods() {
            Ok(ms) => ms,
            Err(kind) => return Err(ParseError::InvalidModifier(kind)),
        };
        let flags = RollFlags::default();
        Ok(RollCommand::new(count, die, modifiers.as_slice(), flags))
    }

    fn parse_count(&self) -> (r: Result<u8, IntErrorKind>)
        ensures
            r == (if self@.0.len() == 0 {
                Ok(1u8)
            } else {
                spec_parse_u8(self@.0)
            }),
    {
        let cs = str_chars(self.count.as_str());
        if cs.len() == 0 {
            Ok(1)
        } else {
            parse_u8(cs.as_slice())
        }
    }

    fn parse_die(&self) -> (r: Result<Die, IntErrorKind>)
        ensures
            r == (if self@.1.len() == 0 {
                Ok(Die(6))
            } else {
                match spec_parse_u8(self@.1.drop_first()) {
                    Ok(f) => Ok(Die(f)),
                    Err(kind) => Err(kind),
                }
            }),
    {
        let cs = str_chars(self.die.as_str());
        if cs.len() == 0 {
            Ok(Die::default())
        } else {
            let (_, digits) = split_chars(cs.as_slice(), 1);
            match parse_u8(digits.as_slice()) {
                Ok(f) => Ok(Die(f)),
                Err(kind) => Err(kind),
            }
        }
    }

    fn parse_mods(&self) -> (r: Result<Vec<i8>, IntErrorKind>)
        ensures
            match spec_parse_mods(self@.2) {
                Ok(ms) => r matches Ok(v) && v@ == ms,
                Err(kind) => r == Err::<Vec<i8>, IntErrorKind>(kind),
            },
    {
        let s = str_chars(self.mods.as_str());
        // The modifiers read so far, and the error of the first piece that
        // could not be read, if any.
        let mut out: Vec<i8> = Vec::new();
        let mut first_err: Option<IntErrorKind> = None;
        let mut buf: Vec<char> = Vec::new();
        let ghost mut done: Seq<Seq<char>> = seq![];
        let mut i: usize = 0;
        while i < s.len()
            invariant
                i <= s.len(),
                i == 0 ==> done.len() == 0 && buf@.len() == 0,
                i > 0 ==> buf@.len() > 0 && split_mods(s@.take(i as int)) == done.push(buf@),
                match first_err {
                    None => parse_pieces(done) == Ok::<Seq<i8>, IntErrorKind>(out@),
                    Some(e) => parse_pieces(done) == Err::<Seq<i8>, IntErrorKind>(e),
                },
            decreases s.len() - i,
        {
            let c = s[i];
            let ghost prefix = s@.take(i as int);
            let ghost old_buf = buf@;
            let ghost old_done = done;
            assert(s@.take(i + 1).drop_last() == prefix);
            assert(s@.take(i + 1).last() == c);
            if buf.len() > 0 && !is_ascii_digit(c) {
                let piece = parse_i8(buf.as_slice());
                proof {
                    done = done.push(buf@);
                    assert(done.drop_last() == old_done);
                }
                if first_err.is_none() {
                    match piece {
                        Ok(v) => out.push(v),
                        Err(e) => first_err = Some(e),
                    }
                }
                buf = Vec::new();
            }
            buf.push(c);
            i += 1;
            proof {
                let cur = s@.take(i as int);
                assert(cur.drop_last() == prefix);
                assert(cur.last() == c);
                if i == 1 {
                    assert(prefix == Seq::<char>::empty());
                    assert(split_mods(prefix) == Seq::<Seq<char>>::empty());
                    assert(split_mods(cur) == seq![seq![c]]);
                    assert(buf@ == seq![c]);
                } else if !is_digit(c) {
                    assert(split_mods(cur) == old_done.push(old_buf).push(seq![c]));
                    assert(buf@ == seq![c]);
                } else {
                    let prev = old_done.push(old_buf);
                    assert(split_mods(cur) == prev.update(prev.len() - 1, old_buf.push(c)));
                    assert(prev.update(prev.len() - 1, old_buf.push(c)) == old_done.push(
                        old_buf.push(c),
                    ));
                    assert(buf@ == old_buf.push(c));
                }
            }
        }
        assert(s@.take(s.len() as int) == s@);
        if s.len() == 0 {
            assert(split_mods(s@) == Seq::<Seq<char>>::empty());
            return Ok(out);
        }
        let piece = parse_i8(buf.as_slice());
        let ghost old_done = done;
        proof {
            done = done.push(buf@);
            assert(done.drop_last() == old_done);
            assert(done == split_mods(s@));
        }
        match first_err {
            Some(e) => Err(e),
            None => match piece {
                Ok(v) => {
                    out.push(v);
                    Ok(out)
                },
                Err(e) => Err(e),
            },
        }
    }

    /// The length of the leading run of digits.
    fn get_count(roll_str: &[char]) -> (n: usize)
        ensures
            n == run_end(roll_str@, 0, count_ok()),
            n <= roll_str@.len(),
    {
        let mut i: usize = 0;
        while i < roll_str.len() && is_ascii_digit(roll_str[i])
            invariant
                i <= roll_str.len(),
                run_end(roll_str@, 0, count_ok()) == run_end(roll_str@, i as int, count_ok()),
            decreases roll_str.len() - i,
        {
            i += 1;
        }
        i
    }

    /// The length of the leading `d` and the digits after it.
    fn get_die(roll_str: &[char]) -> (n: usize)
        ensures
            n == run_end(roll_str@, 0, die_ok()),
            n <= roll_str@.len(),
    {
        let mut i: usize = 0;
        while i < roll_str.len() && ((i == 0 && roll_str[i] == 'd') || is_ascii_digit(roll_str[i]))
            invariant
                i <= roll_str.len(),
                run_end(roll_str@, 0, die_ok()) == run_end(roll_str@, i as int, die_ok()),
            decreases roll_str.len() - i,
        {
            i += 1;
        }
        i
    }

    /// The length of the leading run of signs and digits, one sign at a time.
    fn get_mods(roll_str: &[char]) -> (n: usize)
        ensures
            n == run_end(roll_str@, 0, mods_ok()),
            n <= roll_str@.len(),
    {
        let mut i: usize = 0;
        while i < roll_str.len() && (is_ascii_digit(roll_str[i]) || (is_sign_char(roll_str[i]) && (
        i == 0 || !is_sign_char(roll_str[i - 1]))))
            invariant
                i <= roll_str.len(),
                run_end(roll_str@, 0, mods_ok()) == run_end(roll_str@, i as int, mods_ok()),
            decreases roll_str.len() - i,
        {
            i += 1;
        }
        i
    }
}

impl std::str::FromStr for RollString {
    type Err = ParseError;

    fn from_str(s: &str) -> (r: Result<RollString, ParseError>)
        ensures
            split_as(r, s@),
    {
        RollString::from_str(s)
    }
}

// ---------------------------------------------------------------------------
// Reading back what is displayed
// ---------------------------------------------------------------------------

/// A run of accepted characters from `i` to `k`, stopped at `k`, ends at `k`.
proof fn lemma_run_end_at(s: Seq<char>, i: int, k: int, ok: spec_fn(Seq<char>, int) -> bool)
    requires
        0 <= i <= k <= s.len(),
        forall|j: int| i <= j < k ==> #[trigger] ok(s, j),
        k == s.len() || !ok(s, k),
    ensures
        run_end(s, i, ok) == k,
    decreases k - i,
{
    if i < k {
        lemma_run_end_at(s, i + 1, k, ok);
    }
}

/// Displayed modifiers are signs each followed by digits: every character is
/// accepted as part of the modifiers, the first is a sign, the last a digit.
proof fn lemma_mods_str_shape(ms: Seq<i8>)
    ensures
        forall|j: int| 0 <= j < mods_str(ms).len() ==> #[trigger] mods_ok()(mods_str(ms), j),
        ms.len() == 0 ==> mods_str(ms).len() == 0,
        ms.len() > 0 ==> mods_str(ms).len() > 0 && is_sign(mods_str(ms)[0]) && is_digit(
            mods_str(ms).last(),
        ),
    decreases ms.len(),
{
    if ms.len() > 0 {
        let init = ms.drop_last();
        let v = ms.last();
        lemma_mods_str_shape(init);
        let a = mods_str(init);
        let b = signed_str(v as int);
        let digits = if v < 0 {
            nat_str((-v) as nat)
        } else {
            nat_str(v as nat)
        };
        if v < 0 {
            lemma_nat_str((-v) as nat);
        } else {
            lemma_nat_str(v as nat);
        }
        assert(b == seq![b[0]] + digits);
        assert(is_sign(b[0]));
        let t = a + b;
        assert(mods_str(ms) == t);
        assert forall|j: int| 0 <= j < t.len() implies #[trigger] mods_ok()(t, j) by {
            if j < a.len() {
                assert(t[j] == a[j]);
                assert(mods_ok()(a, j));
                if j > 0 {
                    assert(t[j - 1] == a[j - 1]);
                }
            } else if j == a.len() {
                assert(t[j] == b[0]);
                if j > 0 {
                    assert(t[j - 1] == a.last());
                }
            } else {
                assert(t[j] == digits[j - a.len() - 1]);
            }
        }
        if a.len() > 0 {
            assert(t[0] == a[0]);
        }
        assert(t.last() == digits.last());
    }
}

proof fn lemma_split_mods_nonempty(s: Seq<char>)
    requires
        s.len() > 0,
    ensures
        split_mods(s).len() > 0,
{
}

/// Digits that follow some characters join the last piece.
proof fn lemma_split_mods_digits(a: Seq<char>, d: Seq<char>)
    requires
        a.len() > 0,
        all_digits(d),
    ensures
        split_mods(a + d) == split_mods(a).update(
            split_mods(a).len() - 1,
            split_mods(a).last() + d,
        ),
    decreases d.len(),
{
    lemma_split_mods_nonempty(a);
    let p = split_mods(a);
    if d.len() == 0 {
        assert(a + d == a);
        assert(p.last() + d == p.last());
        assert(p.update(p.len() - 1, p.last()) == p);
    } else {
        let d0 = d.drop_last();
        assert(all_digits(d0)) by {
            assert forall|i: int| 0 <= i < d0.len() implies is_digit(#[trigger] d0[i]) by {
                assert(d0[i] == d[i]);
            }
        }
        lemma_split_mods_digits(a, d0);
        assert((a + d).drop_last() == a + d0);
        assert((a + d).last() == d.last());
        assert(is_digit(d[d.len() - 1]));
        let q = split_mods(a + d0);
        assert(q.len() == p.len());
        assert(q.last() == p.last() + d0);
        assert((p.last() + d0).push(d.last()) == p.last() + d);
        assert(q.update(q.len() - 1, q.last().push(d.last())) == p.update(
            p.len() - 1,
            p.last() + d,
        ));
    }
}

/// A signed number after some characters becomes a piece of its own.
proof fn lemma_split_mods_signed(a: Seq<char>, v: i8)
    ensures
        split_mods(a + signed_str(v as int)) == split_mods(a).push(signed_str(v as int)),
{
    let b = signed_str(v as int);
    let digits = if v < 0 {
        nat_str((-v) as nat)
    } else {
        nat_str(v as nat)
    };
    if v < 0 {
        lemma_nat_str((-v) as nat);
    } else {
        lemma_nat_str(v as nat);
    }
    let sign = b[0];
    assert(b == seq![sign] + digits);
    let a1 = a.push(sign);
    assert(a1.drop_last() == a);
    assert(a1.last() == sign);
    assert(!is_digit(sign));
    if a.len() == 0 {
        assert(split_mods(a) == Seq::<Seq<char>>::empty());
        assert(split_mods(a1) == seq![seq![sign]]);
    } else {
        lemma_split_mods_nonempty(a);
        assert(split_mods(a1) == split_mods(a).push(seq![sign]));
    }
    lemma_split_mods_digits(a1, digits);
    assert(a1 + digits == a + b);
    assert(seq![sign] + digits == b);
}

/// Displayed modifiers fall into one piece per modifier.
proof fn lemma_split_mods_str(ms: Seq<i8>)
    ensures
        split_mods(mods_str(ms)) == Seq::new(ms.len(), |k: int| signed_str(ms[k] as int)),
    decreases ms.len(),
{
    if ms.len() == 0 {
        assert(split_mods(mods_str(ms)) == Seq::<Seq<char>>::empty());
    } else {
        let init = ms.drop_last();
        lemma_split_mods_str(init);
        lemma_split_mods_signed(mods_str(init), ms.last());
        assert(Seq::new(init.len(), |k: int| signed_str(init[k] as int)).push(
            signed_str(ms.last() as int),
        ) == Seq::new(ms.len(), |k: int| signed_str(ms[k] as int)));
    }
}

/// Pieces that are signed renderings of `i8`s read back as those `i8`s.
proof fn lemma_parse_signed_pieces(ms: Seq<i8>)
    ensures
        parse_pieces(Seq::new(ms.len(), |k: int| signed_str(ms[k] as int))) == Ok::<
            Seq<i8>,
            IntErrorKind,
        >(ms),
    decreases ms.len(),
{
    let pieces = Seq::new(ms.len(), |k: int| signed_str(ms[k] as int));
    if ms.len() > 0 {
        let init = ms.drop_last();
        lemma_parse_signed_pieces(init);
        assert(pieces.drop_last() == Seq::new(init.len(), |k: int| signed_str(init[k] as int)));
        lemma_parse_i8_signed_str(ms.last());
        assert(init.push(ms.last()) == ms);
    } else {
        assert(ms == Seq::<i8>::empty());
    }
}

/// Displayed modifiers read back as the same modifiers.
proof fn lemma_parse_mods_str(ms: Seq<i8>)
    ensures
        spec_parse_mods(mods_str(ms)) == Ok::<Seq<i8>, IntErrorKind>(ms),
{
    lemma_split_mods_str(ms);
    lemma_parse_signed_pieces(ms);
}

/// Reading back the text of a command gives back its count, its die and its
/// modifiers: parsing undoes displaying. The text splits into parts with nothing
/// left over, and the parts read as the command.
pub proof fn lemma_parse_displayed_command(cmd: RollCommand)
    ensures
        split_roll_str(command_str(cmd)).3.len() == 0,
        spec_parse_parts(
            (
                split_roll_str(command_str(cmd)).0,
                split_roll_str(command_str(cmd)).1,
                split_roll_str(command_str(cmd)).2,
            ),
        ) == Ok::<(u8, u8, Seq<i8>), ParseError>((cmd.count, cmd.die.0, cmd.modifiers@)),
{
    let n = nat_str(cmd.count as nat);
    let f = nat_str(cmd.die.0 as nat);
    let ms = cmd.modifiers@;
    let m = mods_str(ms);
    lemma_nat_str(cmd.count as nat);
    lemma_nat_str(cmd.die.0 as nat);
    lemma_mods_str_shape(ms);
    let s = command_str(cmd);
    let df = seq!['d'] + f;
    assert(s == n + df + m);
    // the count
    assert forall|j: int| 0 <= j < n.len() implies #[trigger] count_ok()(s, j) by {
        assert(s[j] == n[j]);
    }
    assert(s[n.len() as int] == 'd');
    lemma_run_end_at(s, 0, n.len() as int, count_ok());
    let r1 = s.skip(n.len() as int);
    assert(s.take(n.len() as int) == n);
    assert(r1 == df + m);
    // the die
    assert forall|j: int| 0 <= j < df.len() implies #[trigger] die_ok()(r1, j) by {
        assert(r1[j] == df[j]);
        if j > 0 {
            assert(df[j] == f[j - 1]);
        }
    }
    if m.len() > 0 {
        assert(r1[df.len() as int] == m[0]);
    }
    lemma_run_end_at(r1, 0, df.len() as int, die_ok());
    let r2 = r1.skip(df.len() as int);
    assert(r1.take(df.len() as int) == df);
    assert(r2 == m);
    // the modifiers
    lemma_run_end_at(r2, 0, m.len() as int, mods_ok());
    assert(r2.take(m.len() as int) == m);
    assert(r2.skip(m.len() as int).len() == 0);
    assert(split_roll_str(s) == (n, df, m, r2.skip(m.len() as int)));
    // reading the parts
    lemma_parse_u8_nat_str(cmd.count);
    lemma_parse_u8_nat_str(cmd.die.0);
    assert(df.drop_first() == f);
    lemma_parse_mods_str(ms);
}

// ---------------------------------------------------------------------------
// The count
// ---------------------------------------------------------------------------

/// A roll string that starts with a number -- its digits, perhaps after zeros --
/// and goes on with anything but a digit is, whenever it is read, read with that
/// number as its count, whether a die is written after it or not.
pub proof fn lemma_leading_number_is_count(
    z: nat,
    n: u8,
    tail: Seq<char>,
    r: Result<RollCommand, ParseError>,
)
    requires
        tail.len() == 0 || !is_digit(tail[0]),
        parsed_command_as(r, zeros(z) + nat_str(n as nat) + tail),
        r is Ok,
    ensures
        r matches Ok(cmd) && cmd.count == n,
{
    let p = zeros(z) + nat_str(n as nat);
    let s = p + tail;
    lemma_scan_padded(z, n as nat, 255, IntErrorKind::PosOverflow);
    assert forall|j: int| 0 <= j < p.len() implies #[trigger] count_ok()(s, j) by {
        assert(s[j] == p[j]);
    }
    if tail.len() > 0 {
        assert(s[p.len() as int] == tail[0]);
    }
    lemma_run_end_at(s, 0, p.len() as int, count_ok());
    assert(s.take(p.len() as int) == p);
    assert(is_digit(p[0]));
    assert(spec_parse_u8(p) == Ok::<u8, IntErrorKind>(n));
}

/// A bare number, perhaps after zeros, rolls that many six-sided dice with
/// nothing added.
pub proof fn lemma_bare_number(z: nat, n: u8, r: Result<RollCommand, ParseError>)
    requires
        parsed_command_as(r, zeros(z) + nat_str(n as nat)),
    ensures
        r matches Ok(cmd) && cmd.count == n && cmd.die.0 == 6 && cmd.modifiers@.len() == 0,
{
    let p = zeros(z) + nat_str(n as nat);
    lemma_scan_padded(z, n as nat, 255, IntErrorKind::PosOverflow);
    assert forall|j: int| 0 <= j < p.len() implies #[trigger] count_ok()(p, j) by {}
    lemma_run_end_at(p, 0, p.len() as int, count_ok());
    assert(p.take(p.len() as int) == p);
    let r1 = p.skip(p.len() as int);
    assert(r1 == Seq::<char>::empty());
    assert(r1.skip(0) == r1);
    assert(r1.take(0) == r1);
    assert(is_digit(p[0]));
    assert(spec_parse_u8(p) == Ok::<u8, IntErrorKind>(n));
    assert(split_mods(Seq::<char>::empty()) == Seq::<Seq<char>>::empty());
    assert(parse_pieces(Seq::<Seq<char>>::empty()) == Ok::<Seq<i8>, IntErrorKind>(seq![]));
}

/// A roll string that does not start with a digit is, whenever it is read, read
/// with a count of one.
pub proof fn lemma_missing_count_is_one(s: Seq<char>, r: Result<RollCommand, ParseError>)
    requires
        s.len() == 0 || !is_digit(s[0]),
        parsed_command_as(r, s),
        r is Ok,
    ensures
        r matches Ok(cmd) && cmd.count == 1,
{
    lemma_run_end_at(s, 0, 0, count_ok());
    assert(s.take(0) == Seq::<char>::empty());
}

} // verus!
