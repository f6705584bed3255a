//! The machine register model: an identifier in `0..32` together with a
//! width class (32-bit `W` registers versus 64-bit `X` registers).

use vstd::prelude::*;

verus! {

/// One machine register operand: a numeric encoding and a width class.
///
/// The instruction encoders only ever read the low five bits of `code`, so
/// any `Reg` value denotes some register; the constructors below build the
/// canonically named ones.
#[derive(Clone, Copy, Debug, PartialEq, Eq, Structural)]
pub struct Reg {
    /// Numeric encoding packed into instruction words; only `code % 32` is used.
    pub code: u8,
    /// True for the 64-bit (`X`) register class, false for the 32-bit (`W`) class.
    pub wide: bool,
}

/// The five-bit field value that stands for this register in an instruction word.
pub open spec fn reg_enc(r: Reg) -> int {
    r.code as int % 32
}

/// 1 when the register belongs to the 64-bit class, else 0; many encodings
/// place this bit at the top of the word.
pub open spec fn wide_bit(r: Reg) -> int {
    if r.wide {
        1
    } else {
        0
    }
}

impl Reg {
    /// The 64-bit register `Xn`.
    pub fn x(n: u8) -> (r: Reg)
        requires
            n < 32,
        ensures
            r.code == n,
            r.wide,
    {
        Reg { code: n, wide: true }
    }

    /// The 32-bit register `Wn`.
    pub fn w(n: u8) -> (r: Reg)
        requires
            n < 32,
        ensures
            r.code == n,
            !r.wide,
    {
        Reg { code: n, wide: false }
    }

    /// The five-bit encoding of this register, as executable code.
    pub fn enc(self) -> (e: u32)
        ensures
            e == reg_enc(self),
            e < 32,
    {
        (self.code % 32) as u32
    }
}

/// Whether the register belongs to the 64-bit class.
pub fn is_64_bit(reg: Reg) -> (b: bool)
    ensures
        b == reg.wide,
{
    reg.wide
}

} // verus!
