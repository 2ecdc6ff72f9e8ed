//! Arithmetic function codes of `OPQ` and `IOPQ`.
use vstd::prelude::*;

verus! {

pub const ADD: u8 = 0;
pub const SUB: u8 = 1;
pub const AND: u8 = 2;
pub const XOR: u8 = 3;

} // verus!
