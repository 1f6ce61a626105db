//! Character-level building blocks shared by the parser and the formatters:
//! decimal digits, integer parsing in the format `str::parse` accepts, and
//! decimal rendering of integers the way `Display` and `Debug` write them.
use vstd::prelude::*;

use crate::error::IntErrorKind;

verus! {

/// `String::push` appends one character to the end of the string.
pub assume_specification[ String::push ](s: &mut String, ch: char)
    ensures
        final(s)@ == old(s)@.push(ch),
;

// ---------------------------------------------------------------------------
// Characters and digit strings
// ---------------------------------------------------------------------------

pub open spec fn is_digit(c: char) -> bool {
    '0' <= c && c <= '9'
}

pub open spec fn is_sign(c: char) -> bool {
    c == '+' || c == '-'
}

pub open spec fn digit_value(c: char) -> nat {
    (c as int - 48) as nat
}

pub open spec fn digit_char(d: nat) -> char {
    (d + 48) as char
}

pub open spec fn all_digits(s: Seq<char>) -> bool {
    forall|i: int| 0 <= i < s.len() ==> is_digit(#[trigger] s[i])
}

/// Reads the digits of `body` from the left, as `str::parse` does: the first
/// character that is not a digit is an invalid digit, and the first digit that
/// takes the value past `max` is an overflow of kind `overflow`.
pub open spec fn scan_digits(body: Seq<char>, max: nat, overflow: IntErrorKind) -> Result<
    nat,
    IntErrorKind,
>
    decreases body.len(),
{
    if body.len() == 0 {
        Ok(0)
    } else {
        match scan_digits(body.drop_last(), max, overflow) {
            Err(e) => Err(e),
            Ok(v) => if !is_digit(body.last()) {
                Err(IntErrorKind::InvalidDigit)
            } else if v * 10 + digit_value(body.last()) > max {
                Err(overflow)
            } else {
                Ok(v * 10 + digit_value(body.last()))
            },
        }
    }
}

/// What `str::parse::<u8>` gives: an optional `+`, then one or more ASCII
/// digits whose value fits in a `u8`.
pub open spec fn spec_parse_u8(s: Seq<char>) -> Result<u8, IntErrorKind> {
    if s.len() == 0 {
        Err(IntErrorKind::Empty)
    } else if s.len() == 1 && is_sign(s[0]) {
        Err(IntErrorKind::InvalidDigit)
    } else {
        let body = if s[0] == '+' {
            s.drop_first()
        } else {
            s
        };
        match scan_digits(body, 255, IntErrorKind::PosOverflow) {
            Ok(v) => Ok(v as u8),
            Err(e) => Err(e),
        }
    }
}

/// What `str::parse::<i8>` gives: an optional `+` or `-`, then one or more
/// ASCII digits, the signed value fitting in an `i8`.
pub open spec fn spec_parse_i8(s: Seq<char>) -> Result<i8, IntErrorKind> {
    if s.len() == 0 {
        Err(IntErrorKind::Empty)
    } else if s.len() == 1 && is_sign(s[0]) {
        Err(IntErrorKind::InvalidDigit)
    } else {
        let body = if is_sign(s[0]) {
            s.drop_first()
        } else {
            s
        };
        if s[0] == '-' {
            match scan_digits(body, 128, IntErrorKind::NegOverflow) {
                Ok(v) => Ok((-v) as i8),
                Err(e) => Err(e),
            }
        } else {
            match scan_digits(body, 127, IntErrorKind::PosOverflow) {
                Ok(v) => Ok(v as i8),
                Err(e) => Err(e),
            }
        }
    }
}

// ---------------------------------------------------------------------------
// Rendering integers
// ---------------------------------------------------------------------------

/// Decimal digits of `n`, most significant first, without leading zeros.
pub open spec fn nat_str(n: nat) -> Seq<char>
    decreases n,
{
    if n < 10 {
        seq![digit_char(n)]
    } else {
        nat_str(n / 10).push(digit_char(n % 10))
    }
}

/// An integer as `Display` writes it: a `-` for negative numbers only.
pub open spec fn int_str(i: int) -> Seq<char> {
    if i < 0 {
        seq!['-'] + nat_str((-i) as nat)
    } else {
        nat_str(i as nat)
    }
}

/// An integer that always carries its sign: `+3`, `+0`, `-2`.
pub open spec fn signed_str(i: int) -> Seq<char> {
    if i < 0 {
        int_str(i)
    } else {
        seq!['+'] + nat_str(i as nat)
    }
}

/// The items of a list separated by `", "`.
pub open spec fn list_items_str(items: Seq<int>) -> Seq<char>
    decreases items.len(),
{
    if items.len() == 0 {
        seq![]
    } else if items.len() == 1 {
        int_str(items[0])
    } else {
        list_items_str(items.drop_last()) + seq![',', ' '] + int_str(items.last())
    }
}

/// A list of integers as `Debug` writes it: `[1, -2, 3]`, `[]`.
pub open spec fn list_str(items: Seq<int>) -> Seq<char> {
    seq!['['] + list_items_str(items) + seq![']']
}

/// An integer type whose values are shown in lists.
pub trait ListItem: Copy {
    spec fn as_int(self) -> int;

    fn to_i64(self) -> (r: i64)
        ensures
            r as int == self.as_int(),
    ;
}

impl ListItem for u8 {
    open spec fn as_int(self) -> int {
        self as int
    }

    fn to_i64(self) -> (r: i64) {
        self as i64
    }
}

impl ListItem for i8 {
    open spec fn as_int(self) -> int {
        self as int
    }

    fn to_i64(self) -> (r: i64) {
        self as i64
    }
}

/// The values of a sequence of list items.
pub open spec fn ints_of<T: ListItem>(s: Seq<T>) -> Seq<int> {
    s.map_values(|x: T| x.as_int())
}

/// The text written in place of a number whose computation overflowed.
pub open spec fn overflow_str() -> Seq<char> {
    seq!['O', 'V', 'E', 'R', 'F', 'L', 'O', 'W', '!']
}

// ---------------------------------------------------------------------------
// Executable helpers
// ---------------------------------------------------------------------------

/// The characters of a string slice.
pub fn str_chars(s: &str) -> (v: Vec<char>)
    ensures
        v@ == s@,
{
    let mut v: Vec<char> = Vec::new();
    for c in it: s.chars()
        invariant
            v@ == it.seq().take(it.index() as int),
            it.seq() == s@,
    {
        v.push(c);
    }
    v
}

/// A string made of the given characters.
pub fn chars_to_string(cs: &[char]) -> (s: String)
    ensures
        s@ == cs@,
{
    let mut s = String::new();
    push_chars(&mut s, cs);
    s
}

pub fn push_chars(out: &mut String, cs: &[char])
    ensures
        final(out)@ == old(out)@ + cs@,
{
    let mut i: usize = 0;
    while i < cs.len()
        invariant
            i <= cs.len(),
            out@ == old(out)@ + cs@.take(i as int),
        decreases cs.len() - i,
    {
        out.push(cs[i]);
        i += 1;
        assert(cs@.take(i as int) == cs@.take(i - 1).push(cs@[i - 1]));
    }
    assert(cs@.take(cs.len() as int) == cs@);
}

pub fn is_ascii_digit(c: char) -> (b: bool)
    ensures
        b == is_digit(c),
{
    '0' <= c && c <= '9'
}

pub fn is_sign_char(c: char) -> (b: bool)
    ensures
        b == is_sign(c),
{
    c == '+' || c == '-'
}

fn to_digit_char(d: u8) -> (c: char)
    requires
        d < 10,
    ensures
        c == digit_char(d as nat),
{
    (d + 48) as char
}

/// Pushes the decimal digits of `n`.
pub fn push_nat(out: &mut String, n: u64)
    ensures
        final(out)@ == old(out)@ + nat_str(n as nat),
    decreases n,
{
    if n >= 10 {
        push_nat(out, n / 10);
    }
    out.push(to_digit_char((n % 10) as u8));
}

/// Pushes `v` as `Display` writes it.
pub fn push_int(out: &mut String, v: i64)
    ensures
        final(out)@ == old(out)@ + int_str(v as int),
{
    if v < 0 {
        out.push('-');
        let magnitude: i128 = -(v as i128);
        push_nat(out, magnitude as u64);
    } else {
        push_nat(out, v as u64);
    }
}

/// Pushes `v` with its sign always written.
pub fn push_signed(out: &mut String, v: i64)
    ensures
        final(out)@ == old(out)@ + signed_str(v as int),
{
    if v < 0 {
        push_int(out, v);
    } else {
        out.push('+');
        push_nat(out, v as u64);
    }
}

/// Pushes the text written in place of a number whose computation overflowed.
pub fn push_overflow(out: &mut String)
    ensures
        final(out)@ == old(out)@ + overflow_str(),
{
    push_chars(out, &['O', 'V', 'E', 'R', 'F', 'L', 'O', 'W', '!']);
}

/// Pushes the items as `Debug` writes a list of integers.
pub fn push_list<T: ListItem>(out: &mut String, items: &[T])
    ensures
        final(out)@ == old(out)@ + list_str(ints_of(items@)),
{
    let ghost start = out@;
    out.push('[');
    let mut i: usize = 0;
    while i < items.len()
        invariant
            i <= items.len(),
            out@ == start + seq!['['] + list_items_str(ints_of(items@.take(i as int))),
        decreases items.len() - i,
    {
        if i > 0 {
            out.push(',');
            out.push(' ');
        }
        push_int(out, items[i].to_i64());
        i += 1;
        assert(ints_of(items@.take(i as int)).drop_last() == ints_of(items@.take(i - 1)));
    }
    assert(items@.take(items.len() as int) == items@);
    out.push(']');
}

// ---------------------------------------------------------------------------
// Parsing integers
// ---------------------------------------------------------------------------

/// Reads the digits `s[start..]` as `scan_digits` does.
fn scan_digits_exec(s: &[char], start: usize, max: u8, overflow: IntErrorKind) -> (r: Result<
    u8,
    IntErrorKind,
>)
    requires
        start <= s.len(),
    ensures
        match scan_digits(s@.skip(start as int), max as nat, overflow) {
            Ok(v) => r == Ok::<u8, IntErrorKind>(v as u8),
            Err(e) => r == Err::<u8, IntErrorKind>(e),
        },
{
    let ghost body = s@.skip(start as int);
    let mut v: u32 = 0;
    let mut i: usize = start;
    assert(body.take(0) == Seq::<char>::empty());
    while i < s.len()
        invariant
            start <= i <= s.len(),
            body == s@.skip(start as int),
            v <= max,
            scan_digits(body.take(i - start), max as nat, overflow) == Ok::<nat, IntErrorKind>(
                v as nat,
            ),
        decreases s.len() - i,
    {
        let c = s[i];
        let ghost next = body.take(i - start + 1);
        assert(next.drop_last() == body.take(i - start));
        assert(next.last() == c);
        if !is_ascii_digit(c) {
            proof {
                lemma_scan_digits_err_stays(body, (i - start + 1) as nat, max as nat, overflow);
            }
            return Err(IntErrorKind::InvalidDigit);
        }
        let w = v * 10 + (c as u32 - 48);
        if w > max as u32 {
            proof {
                lemma_scan_digits_err_stays(body, (i - start + 1) as nat, max as nat, overflow);
            }
            return Err(overflow);
        }
        v = w;
        i += 1;
    }
    assert(body.take(i - start) == body);
    Ok(v as u8)
}

/// Once the digits read so far fail, the whole string fails the same way.
proof fn lemma_scan_digits_err_stays(body: Seq<char>, k: nat, max: nat, overflow: IntErrorKind)
    requires
        k <= body.len(),
        scan_digits(body.take(k as int), max, overflow) is Err,
    ensures
        scan_digits(body, max, overflow) == scan_digits(body.take(k as int), max, overflow),
    decreases body.len() - k,
{
    if k < body.len() {
        let next = body.take(k as int + 1);
        assert(next.drop_last() == body.take(k as int));
        lemma_scan_digits_err_stays(body, k + 1, max, overflow);
    } else {
        assert(body.take(k as int) == body);
    }
}

/// Parses a `u8` as `str::parse::<u8>` does.
pub fn parse_u8(s: &[char]) -> (r: Result<u8, IntErrorKind>)
    ensures
        r == spec_parse_u8(s@),
{
    if s.len() == 0 {
        return Err(IntErrorKind::Empty);
    }
    if s.len() == 1 && is_sign_char(s[0]) {
        return Err(IntErrorKind::InvalidDigit);
    }
    let start: usize = if s[0] == '+' {
        1
    } else {
        0
    };
    assert(s@.skip(start as int) == if s@[0] == '+' {
        s@.drop_first()
    } else {
        s@
    });
    scan_digits_exec(s, start, 255, IntErrorKind::PosOverflow)
}

/// Parses an `i8` as `str::parse::<i8>` does.
pub fn parse_i8(s: &[char]) -> (r: Result<i8, IntErrorKind>)
    ensures
        r == spec_parse_i8(s@),
{
    if s.len() == 0 {
        return Err(IntErrorKind::Empty);
    }
    if s.len() == 1 && is_sign_char(s[0]) {
        return Err(IntErrorKind::InvalidDigit);
    }
    let start: usize = if is_sign_char(s[0]) {
        1
    } else {
        0
    };
    assert(s@.skip(start as int) == if is_sign(s@[0]) {
        s@.drop_first()
    } else {
        s@
    });
    if s[0] == '-' {
        match scan_digits_exec(s, start, 128, IntErrorKind::NegOverflow) {
            Ok(v) => {
                let w: i16 = -(v as i16);
                Ok(w as i8)
            },
            Err(e) => Err(e),
        }
    } else {
        match scan_digits_exec(s, start, 127, IntErrorKind::PosOverflow) {
            Ok(v) => Ok(v as i8),
            Err(e) => Err(e),
        }
    }
}

// ---------------------------------------------------------------------------
// Facts about rendered integers
// ---------------------------------------------------------------------------

pub proof fn lemma_digit_char(d: nat)
    requires
        d < 10,
    ensures
        is_digit(digit_char(d)),
        digit_value(digit_char(d)) == d,
{
}

/// The decimal rendering of `n` is a non-empty string of digits.
pub proof fn lemma_nat_str(n: nat)
    ensures
        nat_str(n).len() >= 1,
        all_digits(nat_str(n)),
    decreases n,
{
    lemma_digit_char(n % 10);
    if n >= 10 {
        lemma_nat_str(n / 10);
        let s = nat_str(n);
        assert(s.drop_last() == nat_str(n / 10));
        assert forall|i: int| 0 <= i < s.len() implies is_digit(#[trigger] s[i]) by {
            if i < s.len() - 1 {
                assert(s[i] == nat_str(n / 10)[i]);
            }
        }
    }
}

/// Reading the decimal rendering of `n` gives `n`, when `n` is within bounds.
pub proof fn lemma_scan_nat_str(n: nat, max: nat, overflow: IntErrorKind)
    requires
        n <= max,
    ensures
        scan_digits(nat_str(n), max, overflow) == Ok::<nat, IntErrorKind>(n),
    decreases n,
{
    lemma_digit_char(n % 10);
    let s = nat_str(n);
    if n < 10 {
        assert(s.drop_last() == Seq::<char>::empty());
        assert(scan_digits(Seq::<char>::empty(), max, overflow) == Ok::<nat, IntErrorKind>(0));
    } else {
        assert((n / 10) * 10 + n % 10 == n) by (nonlinear_arith);
        lemma_scan_nat_str(n / 10, max, overflow);
        assert(s.drop_last() == nat_str(n / 10));
    }
}

/// Reading back the rendering of a byte gives the byte.
pub proof fn lemma_parse_u8_nat_str(n: u8)
    ensures
        spec_parse_u8(nat_str(n as nat)) == Ok::<u8, IntErrorKind>(n),
{
    lemma_nat_str(n as nat);
    lemma_scan_nat_str(n as nat, 255, IntErrorKind::PosOverflow);
    assert(is_digit(nat_str(n as nat)[0]));
}

/// Reading back a signed rendering of an `i8` gives the `i8`.
pub proof fn lemma_parse_i8_signed_str(v: i8)
    ensures
        spec_parse_i8(signed_str(v as int)) == Ok::<i8, IntErrorKind>(v),
{
    let s = signed_str(v as int);
    if v < 0 {
        lemma_nat_str((-v) as nat);
        lemma_scan_nat_str((-v) as nat, 128, IntErrorKind::NegOverflow);
        assert(s.drop_first() == nat_str((-v) as nat));
    } else {
        lemma_nat_str(v as nat);
        lemma_scan_nat_str(v as nat, 127, IntErrorKind::PosOverflow);
        assert(s.drop_first() == nat_str(v as nat));
    }
}

/// `z` zeros.
pub open spec fn zeros(z: nat) -> Seq<char> {
    Seq::new(z, |i: int| '0')
}

proof fn lemma_scan_zeros(z: nat, max: nat, overflow: IntErrorKind)
    ensures
        scan_digits(zeros(z), max, overflow) == Ok::<nat, IntErrorKind>(0),
    decreases z,
{
    if z > 0 {
        lemma_scan_zeros((z - 1) as nat, max, overflow);
        assert(zeros(z).drop_last() == zeros((z - 1) as nat));
    } else {
        assert(zeros(z) == Seq::<char>::empty());
    }
}

/// The digits of `n` after any number of zeros are a non-empty string of digits
/// and read as `n`, when `n` is within bounds.
pub proof fn lemma_scan_padded(z: nat, n: nat, max: nat, overflow: IntErrorKind)
    requires
        n <= max,
    ensures
        (zeros(z) + nat_str(n)).len() >= 1,
        all_digits(zeros(z) + nat_str(n)),
        scan_digits(zeros(z) + nat_str(n), max, overflow) == Ok::<nat, IntErrorKind>(n),
    decreases n,
{
    lemma_digit_char(n % 10);
    lemma_nat_str(n);
    let s = zeros(z) + nat_str(n);
    assert forall|i: int| 0 <= i < s.len() implies is_digit(#[trigger] s[i]) by {
        if i >= z {
            assert(s[i] == nat_str(n)[i - z]);
        }
    }
    if n < 10 {
        assert(s.drop_last() == zeros(z));
        lemma_scan_zeros(z, max, overflow);
    } else {
        assert((n / 10) * 10 + n % 10 == n) by (nonlinear_arith);
        lemma_scan_padded(z, n / 10, max, overflow);
        assert(nat_str(n).drop_last() == nat_str(n / 10));
        assert(s.drop_last() == zeros(z) + nat_str(n / 10));
    }
}

} // verus!
