//! Instruction codes: the high nibble of an instruction's first byte.
use vstd::prelude::*;

verus! {

pub const HALT: u8 = 0x0;
pub const NOP: u8 = 0x1;
pub const CMOVX: u8 = 0x2;
pub const IRMOVQ: u8 = 0x3;
pub const RMMOVQ: u8 = 0x4;
pub const MRMOVQ: u8 = 0x5;
pub const OPQ: u8 = 0x6;
pub const JX: u8 = 0x7;
pub const CALL: u8 = 0x8;
pub const RET: u8 = 0x9;
pub const PUSHQ: u8 = 0xa;
pub const POPQ: u8 = 0xb;
/// Extended instruction: arithmetic with an immediate operand.
pub const IOPQ: u8 = 0xc;

/// The mnemonic of an instruction code.
pub open spec fn spec_name_of(code: u8) -> Seq<char> {
    if code == HALT {
        "HALT"@
    } else if code == NOP {
        "NOP"@
    } else if code == CMOVX {
        "CMOVX"@
    } else if code == IRMOVQ {
        "IRMOVQ"@
    } else if code == RMMOVQ {
        "RMMOVQ"@
    } else if code == MRMOVQ {
        "MRMOVQ"@
    } else if code == OPQ {
        "OPQ"@
    } else if code == JX {
        "JX"@
    } else if code == CALL {
        "CALL"@
    } else if code == RET {
        "RET"@
    } else if code == PUSHQ {
        "PUSHQ"@
    } else if code == POPQ {
        "POPQ"@
    } else if code == IOPQ {
        "IOPQ"@
    } else {
        "no name"@
    }
}

pub fn name_of(code: u8) -> (r: &'static str)
    ensures
        r@ == spec_name_of(code),
{
    match code {
        HALT => "HALT",
        NOP => "NOP",
        CMOVX => "CMOVX",
        IRMOVQ => "IRMOVQ",
        RMMOVQ => "RMMOVQ",
        MRMOVQ => "MRMOVQ",
        OPQ => "OPQ",
        JX => "JX",
        CALL => "CALL",
        RET => "RET",
        PUSHQ => "PUSHQ",
        POPQ => "POPQ",
        IOPQ => "IOPQ",
        _ => "no name",
    }
}

} // verus!
