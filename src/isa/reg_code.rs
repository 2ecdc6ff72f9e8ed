//! Register codes.
use vstd::prelude::*;

verus! {

pub const RAX: u8 = 0;
pub const RCX: u8 = 1;
pub const RDX: u8 = 2;
pub const RBX: u8 = 3;
pub const RSP: u8 = 4;
pub const RBP: u8 = 5;
pub const RSI: u8 = 6;
pub const RDI: u8 = 7;
pub const R8: u8 = 8;
pub const R9: u8 = 9;
pub const R10: u8 = 0xa;
pub const R11: u8 = 0xb;
pub const R12: u8 = 0xc;
pub const R13: u8 = 0xd;
pub const R14: u8 = 0xe;
/// "No register".
pub const RNONE: u8 = 0xf;

} // verus!
