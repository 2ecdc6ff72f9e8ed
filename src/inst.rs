//! Decoded assembly instructions, as the assembler's parser produces them.
use vstd::prelude::*;

verus! {

/// An immediate operand: a number, or a label still to be resolved.
#[derive(Debug, Clone)]
pub enum Imm {
    Num(u64),
    Label(String),
}

/// A memory operand `displacement(base)`.
#[derive(Debug, Clone, Copy, PartialEq, Eq, Structural)]
pub struct Addr(pub Option<u64>, pub u8);

/// A Y86-64 instruction with immediates of type `I`. Register, condition
/// and function fields hold the codes of `isa::reg_code`, `isa::cond_fn` and
/// `isa::op_code`.
#[derive(Debug, Clone)]
pub enum Inst<I> {
    HALT,
    NOP,
    CMOVX(u8, u8, u8),
    IRMOVQ(u8, I),
    RMMOVQ(u8, Addr),
    MRMOVQ(Addr, u8),
    OPQ(u8, u8, u8),
    JX(u8, I),
    CALL(I),
    RET,
    PUSHQ(u8),
    POPQ(u8),
    IOPQ(u8, I, u8),
}

pub open spec fn spec_icode<I>(inst: Inst<I>) -> u8 {
    match inst {
        Inst::HALT => 0x0,
        Inst::NOP => 0x1,
        Inst::CMOVX(..) => 0x2,
        Inst::IRMOVQ(..) => 0x3,
        Inst::RMMOVQ(..) => 0x4,
        Inst::MRMOVQ(..) => 0x5,
        Inst::OPQ(..) => 0x6,
        Inst::JX(..) => 0x7,
        Inst::CALL(..) => 0x8,
        Inst::RET => 0x9,
        Inst::PUSHQ(..) => 0xa,
        Inst::POPQ(..) => 0xb,
        Inst::IOPQ(..) => 0xc,
    }
}

/// Whether every register, condition and function field fits in a nibble.
pub open spec fn fields_fit<I>(inst: Inst<I>) -> bool {
    match inst {
        Inst::CMOVX(c, a, b) => c < 16 && a < 16 && b < 16,
        Inst::IRMOVQ(b, _) => b < 16,
        Inst::RMMOVQ(a, Addr(_, b)) => a < 16 && b < 16,
        Inst::MRMOVQ(Addr(_, b), a) => a < 16 && b < 16,
        Inst::OPQ(f, a, b) => f < 16 && a < 16 && b < 16,
        Inst::JX(c, _) => c < 16,
        Inst::PUSHQ(a) => a < 16,
        Inst::POPQ(a) => a < 16,
        Inst::IOPQ(f, _, b) => f < 16 && b < 16,
        _ => true,
    }
}

impl<I> Inst<I> {
    /// The instruction code (high nibble of the first byte).
    pub fn icode(&self) -> (r: u8)
        ensures
            r == spec_icode(*self),
    {
        match self {
            Inst::HALT => 0x0,
            Inst::NOP => 0x1,
            Inst::CMOVX(..) => 0x2,
            Inst::IRMOVQ(..) => 0x3,
            Inst::RMMOVQ(..) => 0x4,
            Inst::MRMOVQ(..) => 0x5,
            Inst::OPQ(..) => 0x6,
            Inst::JX(..) => 0x7,
            Inst::CALL(..) => 0x8,
            Inst::RET => 0x9,
            Inst::PUSHQ(..) => 0xa,
            Inst::POPQ(..) => 0xb,
            Inst::IOPQ(..) => 0xc,
        }
    }

    /// Byte length of the encoded instruction.
    pub fn len(&self) -> (r: usize)
        ensures
            r == crate::isa::inst_len(spec_icode(*self)),
    {
        match self {
            Inst::HALT | Inst::NOP | Inst::RET => 1,
            Inst::CMOVX(..) | Inst::OPQ(..) | Inst::PUSHQ(..) | Inst::POPQ(..) => 2,
            Inst::JX(..) | Inst::CALL(..) => 9,
            _ => 10,
        }
    }
}

} // verus!
