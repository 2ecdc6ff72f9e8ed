//! Condition function codes of `CMOVX` and `JX`.
use vstd::prelude::*;

verus! {

pub const YES: u8 = 0;
pub const LE: u8 = 1;
pub const L: u8 = 2;
pub const E: u8 = 3;
pub const NE: u8 = 4;
pub const GE: u8 = 5;
pub const G: u8 = 6;

} // verus!
