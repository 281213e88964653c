use vstd::prelude::*;

use crate::time::{Duration, NANOS_PER_SEC};

verus! {

/// Calls `String::push`, which appends one character; the contract claims
/// exactly that.
#[verifier::external_body]
pub(crate) fn push_char(s: &mut String, c: char)
    ensures
        final(s)@ == old(s)@.push(c),
{
    s.push(c);
}

/// The character of a decimal digit.
pub open spec fn digit(d: int) -> char {
    (48 + d) as char
}

/// The decimal digits of a number, without leading zeros.
pub open spec fn decimal(n: nat) -> Seq<char>
    decreases n,
{
    if n < 10 {
        seq![digit(n as int)]
    } else {
        decimal(n / 10).push(digit((n % 10) as int))
    }
}

/// The decimal digits of a number, with a leading zero below ten.
pub open spec fn two_digits(n: nat) -> Seq<char> {
    if n < 10 {
        seq!['0'].add(decimal(n))
    } else {
        decimal(n)
    }
}

fn digit_char(d: u64) -> (c: char)
    requires
        d < 10,
    ensures
        c == digit(d as int),
{
    let b: u8 = 48 + d as u8;
    b as char
}

/// Appends the decimal digits of `n`.
pub(crate) fn push_decimal(out: &mut String, n: u64)
    ensures
        final(out)@ == old(out)@ + decimal(n as nat),
    decreases n,
{
    if n >= 10 {
        push_decimal(out, n / 10);
    }
    push_char(out, digit_char(n % 10));
    assert(final(out)@ =~= old(out)@ + decimal(n as nat));
}

/// Appends the decimal digits of `n`, with a leading zero below ten.
pub(crate) fn push_two_digits(out: &mut String, n: u64)
    ensures
        final(out)@ == old(out)@ + two_digits(n as nat),
{
    if n < 10 {
        push_char(out, '0');
    }
    push_decimal(out, n);
    assert(final(out)@ =~= old(out)@ + two_digits(n as nat));
}

/// Whole seconds of a span as minutes and seconds, "m:ss".
pub open spec fn clock_text(secs: nat) -> Seq<char> {
    decimal(secs / 60) + seq![':'] + two_digits(secs % 60)
}

/// Whole seconds of a span as minutes and seconds, "mm:ss".
pub open spec fn timer_text(secs: nat) -> Seq<char> {
    two_digits(secs / 60) + seq![':'] + two_digits(secs % 60)
}

/// A span as minutes and seconds, "m:ss", the seconds rounded down.
pub fn clock(duration: Duration) -> (s: String)
    requires
        duration.fits(),
    ensures
        s@ == clock_text((duration@ / (NANOS_PER_SEC as int)) as nat),
{
    let total = duration.as_secs();
    let mut out = String::new();
    push_decimal(&mut out, total / 60);
    push_char(&mut out, ':');
    push_two_digits(&mut out, total % 60);
    assert(out@ =~= clock_text(total as nat));
    out
}

/// A span as minutes and seconds, "mm:ss", the seconds rounded down.
pub fn format_time(duration: Duration) -> (s: String)
    requires
        duration.fits(),
    ensures
        s@ == timer_text((duration@ / (NANOS_PER_SEC as int)) as nat),
{
    let secs = duration.as_secs();
    let mut out = String::new();
    push_two_digits(&mut out, secs / 60);
    push_char(&mut out, ':');
    push_two_digits(&mut out, secs % 60);
    assert(out@ =~= timer_text(secs as nat));
    out
}

} // verus!
