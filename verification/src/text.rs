//! Text of the engine's error messages.
use vstd::prelude::*;
use vstd::string::StringExecFns;

verus! {

/// The upper-case hexadecimal digit of `n` (0..16).
pub open spec fn digit_text(n: nat) -> Seq<char> {
    if n == 0 {
        "0"@
    } else if n == 1 {
        "1"@
    } else if n == 2 {
        "2"@
    } else if n == 3 {
        "3"@
    } else if n == 4 {
        "4"@
    } else if n == 5 {
        "5"@
    } else if n == 6 {
        "6"@
    } else if n == 7 {
        "7"@
    } else if n == 8 {
        "8"@
    } else if n == 9 {
        "9"@
    } else if n == 10 {
        "A"@
    } else if n == 11 {
        "B"@
    } else if n == 12 {
        "C"@
    } else if n == 13 {
        "D"@
    } else if n == 14 {
        "E"@
    } else {
        "F"@
    }
}

/// Appends the digit of `n` to `s`.
pub fn push_digit(s: &mut String, n: u8)
    requires
        n < 16,
    ensures
        final(s)@ == old(s)@ + digit_text(n as nat),
{
    if n == 0 {
        s.append("0");
    } else if n == 1 {
        s.append("1");
    } else if n == 2 {
        s.append("2");
    } else if n == 3 {
        s.append("3");
    } else if n == 4 {
        s.append("4");
    } else if n == 5 {
        s.append("5");
    } else if n == 6 {
        s.append("6");
    } else if n == 7 {
        s.append("7");
    } else if n == 8 {
        s.append("8");
    } else if n == 9 {
        s.append("9");
    } else if n == 10 {
        s.append("A");
    } else if n == 11 {
        s.append("B");
    } else if n == 12 {
        s.append("C");
    } else if n == 13 {
        s.append("D");
    } else if n == 14 {
        s.append("E");
    } else {
        s.append("F");
    }
}

/// Decimal text of `n`.
pub open spec fn decimal(n: nat) -> Seq<char>
    decreases n,
{
    if n < 10 {
        digit_text(n)
    } else {
        decimal(n / 10) + digit_text(n % 10)
    }
}

/// Appends the decimal text of `n` to `s`.
pub fn push_decimal(s: &mut String, n: u128)
    ensures
        final(s)@ == old(s)@ + decimal(n as nat),
    decreases n,
{
    if n >= 10 {
        push_decimal(s, n / 10);
    }
    push_digit(s, (n % 10) as u8);
}

/// Message for an unsupported version byte: `unsupported version 0x` and two
/// upper-case hexadecimal digits.
pub open spec fn version_message(v: u8) -> Seq<char> {
    "unsupported version 0x"@ + digit_text((v / 16) as nat) + digit_text((v % 16) as nat)
}

/// Appends [`version_message`] of `v` to `s`.
pub fn push_version_message(s: &mut String, v: u8)
    ensures
        final(s)@ == old(s)@ + version_message(v),
{
    s.append("unsupported version 0x");
    push_digit(s, v / 16);
    push_digit(s, v % 16);
}

} // verus!
