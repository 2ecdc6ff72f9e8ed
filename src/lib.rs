//! A cycle-accurate simulator for the Y86-64 instruction set: the
//! instruction set and its reference interpreter, the object image an
//! assembled program occupies, and a framework that describes CPU
//! microarchitectures as hardware units wired by guarded signal equations,
//! compiled to a dataflow graph and propagated cycle by cycle.

pub mod compile;
pub mod framework;
pub mod hcl;
pub mod inst;
pub mod isa;
pub mod object;
pub mod order;
pub mod replay;
pub mod utils;
pub mod verbose;
