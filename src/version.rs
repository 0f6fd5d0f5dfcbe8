//! The n-gram model format version.

use crate::text::string_of;
use vstd::prelude::*;

verus! {

/// A model version, `major.minor`; 0.0 is the development version.
#[derive(Clone, Copy, Debug, PartialEq, Eq, PartialOrd, Ord, Hash, Structural)]
pub struct NgramModelVersion {
    pub major: u8,
    pub minor: u8,
}

pub open spec fn digit_char(d: int) -> char {
    if d == 0 { '0' } else if d == 1 { '1' } else if d == 2 { '2' } else if d == 3 { '3' }
    else if d == 4 { '4' } else if d == 5 { '5' } else if d == 6 { '6' } else if d == 7 { '7' }
    else if d == 8 { '8' } else if d == 9 { '9' } else if d == 10 { 'a' } else if d == 11 { 'b' }
    else if d == 12 { 'c' } else if d == 13 { 'd' } else if d == 14 { 'e' } else { 'f' }
}

/// The decimal digits of `n`.
pub open spec fn decimal(n: nat) -> Seq<char>
    decreases n,
{
    if n < 10 {
        seq![digit_char(n as int)]
    } else {
        decimal(n / 10).push(digit_char((n % 10) as int))
    }
}

/// Two lower-case hexadecimal digits of a byte.
pub open spec fn hex2(b: u8) -> Seq<char> {
    seq![digit_char((b / 16) as int), digit_char((b % 16) as int)]
}

/// How a version is written: `vDEV`, or `v` followed by major and minor.
pub open spec fn version_text(v: NgramModelVersion) -> Seq<char> {
    if v.major == 0 && v.minor == 0 {
        seq!['v', 'D', 'E', 'V']
    } else {
        seq!['v'] + decimal(v.major as nat) + seq!['.'] + decimal(v.minor as nat)
    }
}

fn digit(d: u8) -> (r: char)
    requires
        d < 16,
    ensures
        r == digit_char(d as int),
{
    if d == 0 { '0' } else if d == 1 { '1' } else if d == 2 { '2' } else if d == 3 { '3' }
    else if d == 4 { '4' } else if d == 5 { '5' } else if d == 6 { '6' } else if d == 7 { '7' }
    else if d == 8 { '8' } else if d == 9 { '9' } else if d == 10 { 'a' } else if d == 11 { 'b' }
    else if d == 12 { 'c' } else if d == 13 { 'd' } else if d == 14 { 'e' } else { 'f' }
}

fn push_decimal(out: &mut Vec<char>, n: u8)
    ensures
        final(out)@ == old(out)@ + decimal(n as nat),
    decreases n,
{
    if n < 10 {
        out.push(digit(n));
        assert(final(out)@ =~= old(out)@ + decimal(n as nat));
    } else {
        push_decimal(out, n / 10);
        out.push(digit(n % 10));
        assert(final(out)@ =~= old(out)@ + decimal(n as nat));
    }
}

impl NgramModelVersion {
    pub fn new(major: u8, minor: u8) -> (r: Self)
        ensures
            r.major == major,
            r.minor == minor,
    {
        NgramModelVersion { major, minor }
    }

    /// The development version, 0.0.
    pub fn dev() -> (r: Self)
        ensures
            r.major == 0 && r.minor == 0,
    {
        NgramModelVersion { major: 0, minor: 0 }
    }

    pub open spec fn latest_spec() -> Self {
        NgramModelVersion { major: 0, minor: 1 }
    }

    /// The newest version, 0.1.
    pub fn latest() -> (r: Self)
        ensures
            r == Self::latest_spec(),
    {
        NgramModelVersion { major: 0, minor: 1 }
    }

    /// The version as written for people: `vDEV` or `v0.1`.
    pub fn display_string(&self) -> (r: String)
        ensures
            r@ == version_text(*self),
    {
        let mut out: Vec<char> = Vec::new();
        out.push('v');
        if self.major == 0 && self.minor == 0 {
            out.push('D');
            out.push('E');
            out.push('V');
        } else {
            push_decimal(&mut out, self.major);
            out.push('.');
            push_decimal(&mut out, self.minor);
        }
        assert(out@ =~= version_text(*self));
        string_of(&out)
    }

    /// The version with its code in hexadecimal: `v0.1 (0x0001)`.
    pub fn debug_string(&self) -> (r: String)
        ensures
            r@ == version_text(*self) + seq![' ', '(', '0', 'x'] + hex2(self.major) + hex2(
                self.minor,
            ) + seq![')'],
    {
        let d = self.display_string();
        let mut out: Vec<char> = crate::text::chars_of(d.as_str());
        out.push(' ');
        out.push('(');
        out.push('0');
        out.push('x');
        out.push(digit(self.major / 16));
        out.push(digit(self.major % 16));
        out.push(digit(self.minor / 16));
        out.push(digit(self.minor % 16));
        out.push(')');
        assert(out@ =~= version_text(*self) + seq![' ', '(', '0', 'x'] + hex2(self.major) + hex2(
            self.minor,
        ) + seq![')']);
        string_of(&out)
    }
}

} // verus!
