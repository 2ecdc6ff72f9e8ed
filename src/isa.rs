//! Instruction set of the Y86-64 machine, and a reference interpreter that
//! executes machine code one instruction at a time.
use vstd::prelude::*;

use crate::framework::MEM_SIZE;
use crate::utils::{byte_at, first8, get_u64, le_value, lemma_byte_at_shift};

pub mod cond_fn;
pub mod inst_code;
pub mod op_code;
pub mod reg_code;

verus! {

/// 16 registers of 64 bits; index `RNONE` is the "no register" slot.
pub type RegFile = [u64; 16];

/// The sign bit of a 64-bit word.
pub const SIGN_BIT: u64 = 0x8000_0000_0000_0000;

/// Sign bit of a 64-bit word.
pub open spec fn is_negative(x: u64) -> bool {
    x >= SIGN_BIT
}

/// The ALU: `b op a`, or `None` for an unknown function code.
pub open spec fn spec_arithmetic(a: u64, b: u64, op: u8) -> Option<u64> {
    if op == op_code::ADD {
        Some(b.wrapping_add(a))
    } else if op == op_code::SUB {
        Some(b.wrapping_sub(a))
    } else if op == op_code::XOR {
        Some(b ^ a)
    } else if op == op_code::AND {
        Some(b & a)
    } else {
        None
    }
}

pub fn arithmetic_compute(a: u64, b: u64, op: u8) -> (r: Option<u64>)
    ensures
        r == spec_arithmetic(a, b, op),
{
    match op {
        op_code::ADD => Some(b.wrapping_add(a)),
        op_code::SUB => Some(b.wrapping_sub(a)),
        op_code::XOR => Some(b ^ a),
        op_code::AND => Some(b & a),
        _ => None,
    }
}

/// A data structure that simulates the condition codes.
#[derive(Debug, Clone, Copy, PartialEq, Eq, Structural)]
pub struct ConditionCode {
    pub sf: bool,
    pub of: bool,
    pub zf: bool,
}

/// Default value of the condition code: all flags clear.
pub open spec fn cc_init() -> ConditionCode {
    ConditionCode { sf: false, of: false, zf: false }
}

impl Default for ConditionCode {
    fn default() -> (r: Self)
        ensures
            r == cc_init(),
    {
        ConditionCode { sf: false, of: false, zf: false }
    }
}

/// Whether the condition codes satisfy condition function `cfn`.
pub open spec fn spec_cond_holds(cc: ConditionCode, cfn: u8) -> bool {
    let lt = cc.sf != cc.of;
    if cfn == cond_fn::YES {
        true
    } else if cfn == cond_fn::E {
        cc.zf
    } else if cfn == cond_fn::NE {
        !cc.zf
    } else if cfn == cond_fn::L {
        lt
    } else if cfn == cond_fn::LE {
        cc.zf || lt
    } else if cfn == cond_fn::GE {
        !lt
    } else if cfn == cond_fn::G {
        !cc.zf && !lt
    } else {
        false
    }
}

/// The condition codes after computing `e = b op a`.
pub open spec fn spec_cc_after(a: u64, b: u64, e: u64, opfun: u8) -> ConditionCode {
    ConditionCode {
        sf: is_negative(e),
        zf: e == 0,
        of: if opfun == op_code::ADD {
            is_negative(a) == is_negative(b) && is_negative(a) != is_negative(e)
        } else if opfun == op_code::SUB {
            is_negative(a) != is_negative(b) && is_negative(b) != is_negative(e)
        } else {
            false
        },
    }
}

impl ConditionCode {
    /// Test if the condition code satisfies the given condition function.
    pub fn test(self, cfn: u8) -> (r: bool)
        ensures
            r == spec_cond_holds(self, cfn),
    {
        let lt = self.sf != self.of;
        match cfn {
            cond_fn::YES => true,
            cond_fn::E => self.zf,
            cond_fn::NE => !self.zf,
            cond_fn::L => lt,
            cond_fn::LE => self.zf || lt,
            cond_fn::GE => !lt,
            cond_fn::G => !self.zf && !lt,
            _ => false,
        }
    }

    /// Set the flags from the operands `a`, `b` and the result `e` of `b op a`.
    pub fn set(&mut self, a: u64, b: u64, e: u64, opfun: u8)
        ensures
            *final(self) == spec_cc_after(a, b, e, opfun),
    {
        let na = a >= SIGN_BIT;
        let nb = b >= SIGN_BIT;
        let ne = e >= SIGN_BIT;
        *self = ConditionCode {
            sf: ne,
            zf: e == 0,
            of: match opfun {
                op_code::ADD => na == nb && na != ne,
                op_code::SUB => na != nb && nb != ne,
                _ => false,
            },
        };
    }
}

/// Simulator State (at each stage), depending on the hardware design.
#[derive(Debug, Clone, Copy, PartialEq, Eq, Structural)]
pub enum Stat {
    /// Indicates that everything is fine.
    Aok,
    /// Indicates that the stage is bubbled. A bubbled stage executes the NOP
    /// instruction.
    Bub,
    /// The halt state, assigned when the instruction fetcher reads the halt
    /// instruction.
    Hlt,
    /// Assigned when the instruction memory or data memory is accessed with
    /// an invalid address.
    Adr,
    /// Assigned when the instruction fetcher reads an invalid instruction code.
    Ins,
}

impl Default for Stat {
    fn default() -> (r: Self)
        ensures
            r == Stat::Aok,
    {
        Stat::Aok
    }
}

impl Stat {
    /// Short lower-case name of the status.
    pub fn name(&self) -> (r: &'static str)
        ensures
            r@ == (match *self {
                Stat::Aok => "aok"@,
                Stat::Bub => "bub"@,
                Stat::Hlt => "hlt"@,
                Stat::Adr => "adr"@,
                Stat::Ins => "ins"@,
            }),
    {
        match self {
            Stat::Aok => "aok",
            Stat::Bub => "bub",
            Stat::Hlt => "hlt",
            Stat::Adr => "adr",
            Stat::Ins => "ins",
        }
    }

    /// Whether the status stops the machine: anything but `Aok` and `Bub`.
    pub fn is_fault_or_halt(&self) -> (r: bool)
        ensures
            r == !(*self == Stat::Aok || *self == Stat::Bub),
    {
        match self {
            Stat::Aok | Stat::Bub => false,
            _ => true,
        }
    }
}

/// Why the reference interpreter stopped without reaching `HALT`.
#[derive(Debug, Clone, Copy, PartialEq, Eq, Structural)]
pub enum IsaError {
    /// A register field that must be `RNONE` holds this code.
    InvalidRegister(u8),
    /// An instruction whose function code must be zero (or a known
    /// arithmetic function) has this one.
    InvalidIfun { icode: u8, ifun: u8 },
    /// The instruction code is not one of the instruction set.
    UnknownIcode(u8),
    /// The stack pointer would leave the 64-bit range.
    RspOverflow,
    /// An instruction or a data word at this address does not lie in memory.
    InvalidAddress(u64),
    /// The instruction budget ran out before `HALT`.
    StepLimit,
}

/// Byte length of an instruction, by its code (0 for unknown codes).
pub open spec fn inst_len(icode: u8) -> nat {
    if icode == inst_code::HALT || icode == inst_code::NOP || icode == inst_code::RET {
        1
    } else if icode == inst_code::CMOVX || icode == inst_code::OPQ || icode == inst_code::PUSHQ
        || icode == inst_code::POPQ {
        2
    } else if icode == inst_code::JX || icode == inst_code::CALL {
        9
    } else if icode == inst_code::IRMOVQ || icode == inst_code::RMMOVQ || icode
        == inst_code::MRMOVQ || icode == inst_code::IOPQ {
        10
    } else {
        0
    }
}

/// Register `r` as an instruction reads it: `RNONE` reads as 0.
pub open spec fn reg_read(regs: Seq<u64>, r: int) -> u64 {
    if r == reg_code::RNONE as int {
        0
    } else {
        regs[r]
    }
}

/// The register file after `v` is written to `r`: a write to `RNONE` is
/// dropped.
pub open spec fn reg_write(regs: Seq<u64>, r: int, v: u64) -> Seq<u64> {
    if r == reg_code::RNONE as int {
        regs
    } else {
        regs.update(r, v)
    }
}

/// The machine state seen by the reference interpreter.
pub struct IsaState {
    pub mem: Seq<u8>,
    pub regs: Seq<u64>,
    pub cc: ConditionCode,
    pub pc: u64,
}

/// The 8-byte little-endian word at `addr`.
pub open spec fn mem_read(mem: Seq<u8>, addr: int) -> u64 {
    le_value(mem.subrange(addr, addr + 8)) as u64
}

/// `mem` with the 8-byte little-endian word `v` stored at `addr`.
pub open spec fn mem_write(mem: Seq<u8>, addr: int, v: u64) -> Seq<u8> {
    Seq::new(
        mem.len(),
        |i: int|
            if addr <= i < addr + 8 {
                byte_at(v as nat, (i - addr) as nat)
            } else {
                mem[i]
            },
    )
}

/// Whether an 8-byte word at `addr` lies in memory.
pub open spec fn word_in(mem: Seq<u8>, addr: u64) -> bool {
    addr as int + 8 <= mem.len()
}

/// One step of the interpreter.
pub enum IsaStep {
    /// The instruction at `pc` is `HALT`.
    Halt,
    /// The state after the instruction at `pc`.
    Next(IsaState),
    /// The instruction at `pc` fails.
    Fault(IsaError),
}

/// Effect of the instruction at `s.pc`, which lies in memory with its code
/// `icode` and function `ifun`.
pub open spec fn spec_exec(s: IsaState, icode: u8, ifun: u8) -> IsaStep {
    let m = s.mem;
    let pc = s.pc as int;
    let ra = (m[pc + 1] / 16) as int;
    let rb = (m[pc + 1] % 16) as int;
    let rsp = s.regs[reg_code::RSP as int];
    let pins_ifun = icode != inst_code::CMOVX && icode != inst_code::OPQ && icode
        != inst_code::JX && icode != inst_code::IOPQ;
    if pins_ifun && ifun != 0 {
        IsaStep::Fault(IsaError::InvalidIfun { icode, ifun })
    } else if icode == inst_code::HALT {
        IsaStep::Halt
    } else if icode == inst_code::NOP {
        IsaStep::Next(IsaState { pc: (s.pc + 1) as u64, ..s })
    } else if icode == inst_code::CMOVX {
        let regs = if spec_cond_holds(s.cc, ifun) {
            reg_write(s.regs, rb, reg_read(s.regs, ra))
        } else {
            s.regs
        };
        IsaStep::Next(IsaState { regs, pc: (s.pc + 2) as u64, ..s })
    } else if icode == inst_code::IRMOVQ {
        if ra != reg_code::RNONE {
            IsaStep::Fault(IsaError::InvalidRegister(ra as u8))
        } else {
            IsaStep::Next(
                IsaState { regs: reg_write(s.regs, rb, mem_read(m, pc + 2)), pc: (s.pc + 10) as u64, ..s },
            )
        }
    } else if icode == inst_code::RMMOVQ || icode == inst_code::MRMOVQ {
        let addr = reg_read(s.regs, rb).wrapping_add(mem_read(m, pc + 2));
        if !word_in(m, addr) {
            IsaStep::Fault(IsaError::InvalidAddress(addr))
        } else if icode == inst_code::RMMOVQ {
            IsaStep::Next(
                IsaState { mem: mem_write(m, addr as int, reg_read(s.regs, ra)), pc: (s.pc + 10) as u64, ..s },
            )
        } else {
            IsaStep::Next(
                IsaState {
                    regs: reg_write(s.regs, ra, mem_read(m, addr as int)),
                    pc: (s.pc + 10) as u64,
                    ..s
                },
            )
        }
    } else if icode == inst_code::OPQ || icode == inst_code::IOPQ {
        let (va, len) = if icode == inst_code::OPQ {
            (reg_read(s.regs, ra), 2u64)
        } else {
            (mem_read(m, pc + 2), 10u64)
        };
        if icode == inst_code::IOPQ && ra != reg_code::RNONE {
            IsaStep::Fault(IsaError::InvalidRegister(ra as u8))
        } else {
            match spec_arithmetic(va, reg_read(s.regs, rb), ifun) {
                None => IsaStep::Fault(IsaError::InvalidIfun { icode, ifun }),
                Some(ve) => IsaStep::Next(
                    IsaState {
                        regs: reg_write(s.regs, rb, ve),
                        cc: spec_cc_after(va, reg_read(s.regs, rb), ve, ifun),
                        pc: (s.pc + len) as u64,
                        ..s
                    },
                ),
            }
        }
    } else if icode == inst_code::JX {
        let pc = if spec_cond_holds(s.cc, ifun) {
            mem_read(m, pc + 1)
        } else {
            (s.pc + 9) as u64
        };
        IsaStep::Next(IsaState { pc, ..s })
    } else if icode == inst_code::CALL || icode == inst_code::PUSHQ {
        let (v, next) = if icode == inst_code::CALL {
            ((s.pc + 9) as u64, mem_read(m, pc + 1))
        } else {
            (reg_read(s.regs, ra), (s.pc + 2) as u64)
        };
        if rsp < 8 {
            IsaStep::Fault(IsaError::RspOverflow)
        } else if !word_in(m, (rsp - 8) as u64) {
            IsaStep::Fault(IsaError::InvalidAddress((rsp - 8) as u64))
        } else {
            IsaStep::Next(
                IsaState {
                    mem: mem_write(m, rsp - 8, v),
                    regs: s.regs.update(reg_code::RSP as int, (rsp - 8) as u64),
                    pc: next,
                    ..s
                },
            )
        }
    } else {
        // RET and POPQ
        if !word_in(m, rsp) {
            IsaStep::Fault(IsaError::InvalidAddress(rsp))
        } else {
            let v = mem_read(m, rsp as int);
            let regs = s.regs.update(reg_code::RSP as int, (rsp + 8) as u64);
            if icode == inst_code::RET {
                IsaStep::Next(IsaState { regs, pc: v, ..s })
            } else {
                IsaStep::Next(IsaState { regs: reg_write(regs, ra, v), pc: (s.pc + 2) as u64, ..s })
            }
        }
    }
}

/// One step of the reference interpreter from state `s`.
pub open spec fn isa_step(s: IsaState) -> IsaStep {
    let m = s.mem;
    let pc = s.pc as int;
    if pc >= m.len() {
        IsaStep::Fault(IsaError::InvalidAddress(s.pc))
    } else {
        let icode = m[pc] / 16;
        let ifun = m[pc] % 16;
        if icode > inst_code::IOPQ {
            IsaStep::Fault(IsaError::UnknownIcode(icode))
        } else if pc + inst_len(icode) > m.len() {
            IsaStep::Fault(IsaError::InvalidAddress(s.pc))
        } else {
            spec_exec(s, icode, ifun)
        }
    }
}

/// Outcome of running the interpreter with a budget of instructions.
pub enum IsaRun {
    /// `HALT` was executed, leaving state `IsaState` (its `pc` one past the
    /// `HALT`) after this many instructions, the `HALT` included.
    Halted(IsaState, nat),
    Fault(IsaError),
    /// The budget ran out.
    Exhausted,
}

/// Run from `s` for at most `fuel` instructions.
pub open spec fn isa_run(s: IsaState, fuel: nat) -> IsaRun
    decreases fuel,
{
    if fuel == 0 {
        IsaRun::Exhausted
    } else {
        match isa_step(s) {
            IsaStep::Halt => IsaRun::Halted(IsaState { pc: (s.pc + 1) as u64, ..s }, 1),
            IsaStep::Fault(e) => IsaRun::Fault(e),
            IsaStep::Next(t) => add_count(isa_run(t, (fuel - 1) as nat), 1),
        }
    }
}

pub open spec fn add_count(r: IsaRun, k: nat) -> IsaRun {
    match r {
        IsaRun::Halted(s, n) => IsaRun::Halted(s, n + k),
        other => other,
    }
}

/// The state in which a program starts: registers and flags clear, `pc` 0.
pub open spec fn initial_state(mem: Seq<u8>) -> IsaState {
    IsaState { mem, regs: Seq::new(16, |i: int| 0u64), cc: cc_init(), pc: 0 }
}

/// Simulation result of the Y86 machine code on the standard ISA.
pub struct StandardResult {
    pub bin: Vec<u8>,
    pub cc: ConditionCode,
    pub regs: RegFile,
    pub pc: u64,
    pub n_insts: u64,
}

/// Whether `r` is what `isa_run` reports.
pub open spec fn result_matches(run: IsaRun, r: Result<StandardResult, IsaError>) -> bool {
    match r {
        Ok(res) => run == IsaRun::Halted(
            IsaState { mem: res.bin@, regs: res.regs@, cc: res.cc, pc: res.pc },
            res.n_insts as nat,
        ),
        Err(IsaError::StepLimit) => run == IsaRun::Exhausted,
        Err(e) => run == IsaRun::Fault(e),
    }
}

struct Machine {
    mem: Vec<u8>,
    regs: RegFile,
    cc: ConditionCode,
    pc: u64,
}

impl Machine {
    spec fn state(&self) -> IsaState {
        IsaState { mem: self.mem@, regs: self.regs@, cc: self.cc, pc: self.pc }
    }

    fn read_word(&self, addr: u64) -> (r: u64)
        requires
            self.mem@.len() == MEM_SIZE,
            word_in(self.mem@, addr),
        ensures
            r == mem_read(self.mem@, addr as int),
    {
        let a = addr as usize;
        let w = vstd::slice::slice_subrange(self.mem.as_slice(), a, a + 8);
        assert(first8(w@) =~= self.mem@.subrange(a as int, a + 8));
        get_u64(w)
    }

    fn write_word(&mut self, addr: u64, v: u64)
        requires
            old(self).mem@.len() == MEM_SIZE,
            word_in(old(self).mem@, addr),
        ensures
            final(self).state() == (IsaState { mem: mem_write(old(self).mem@, addr as int, v), ..old(self).state() }),
    {
        let a = addr as usize;
        let mut x: u64 = v;
        let mut i: usize = 0;
        while i < 8
            invariant
                i <= 8,
                a + 8 <= self.mem@.len(),
                self.mem@.len() == MEM_SIZE,
                self.mem@.len() == old(self).mem@.len(),
                self.regs == old(self).regs,
                self.cc == old(self).cc,
                self.pc == old(self).pc,
                x as nat == crate::utils::shift_bytes(v as nat, i as nat),
                forall|j: int| 0 <= j < self.mem@.len() ==> #[trigger] self.mem@[j] == (if a <= j < a + i {
                    byte_at(v as nat, (j - a) as nat)
                } else {
                    old(self).mem@[j]
                }),
            decreases 8 - i,
        {
            proof {
                lemma_byte_at_shift(v as nat, i as nat);
            }
            self.mem.set(a + i, (x % 256) as u8);
            x = x / 256;
            i = i + 1;
        }
        assert(self.mem@ =~= mem_write(old(self).mem@, addr as int, v));
    }

    fn set_reg(&mut self, r: usize, v: u64)
        requires
            r < 16,
        ensures
            final(self).state() == (IsaState { regs: reg_write(old(self).regs@, r as int, v), ..old(self).state() }),
    {
        if r != reg_code::RNONE as usize {
            self.regs[r] = v;
            assert(self.regs@ =~= old(self).regs@.update(r as int, v));
        }
    }

    fn get_reg(&self, r: usize) -> (v: u64)
        requires
            r < 16,
        ensures
            v == reg_read(self.regs@, r as int),
    {
        if r == reg_code::RNONE as usize {
            0
        } else {
            self.regs[r]
        }
    }

    /// Execute the instruction at `pc`: `Ok(true)` on `HALT`, which changes
    /// nothing, `Ok(false)` after any other instruction.
    #[verifier::rlimit(40)]
    fn step(&mut self) -> (r: Result<bool, IsaError>)
        requires
            old(self).mem@.len() == MEM_SIZE,
        ensures
            final(self).mem@.len() == MEM_SIZE,
            match isa_step(old(self).state()) {
                IsaStep::Halt => r == Ok::<bool, IsaError>(true) && final(self).state() == (IsaState { pc: (old(self).pc + 1) as u64, ..old(self).state() }),
                IsaStep::Next(t) => r == Ok::<bool, IsaError>(false) && final(self).state() == t,
                IsaStep::Fault(e) => r == Err::<bool, IsaError>(e) && e != IsaError::StepLimit,
            },
    {
        let ghost s = self.state();
        if self.pc >= MEM_SIZE as u64 {
            return Err(IsaError::InvalidAddress(self.pc));
        }
        let pc = self.pc as usize;
        let icode = self.mem[pc] / 16;
        let ifun = self.mem[pc] % 16;
        let len: usize = match icode {
            inst_code::HALT | inst_code::NOP | inst_code::RET => 1,
            inst_code::CMOVX | inst_code::OPQ | inst_code::PUSHQ | inst_code::POPQ => 2,
            inst_code::JX | inst_code::CALL => 9,
            inst_code::IRMOVQ | inst_code::RMMOVQ | inst_code::MRMOVQ | inst_code::IOPQ => 10,
            _ => {
                return Err(IsaError::UnknownIcode(icode));
            },
        };
        if pc + len > MEM_SIZE {
            return Err(IsaError::InvalidAddress(self.pc));
        }
        let pins_ifun = icode != inst_code::CMOVX && icode != inst_code::OPQ && icode
            != inst_code::JX && icode != inst_code::IOPQ;
        if pins_ifun && ifun != 0 {
            return Err(IsaError::InvalidIfun { icode, ifun });
        }
        let (ra, rb) = if len >= 2 {
            ((self.mem[pc + 1] / 16) as usize, (self.mem[pc + 1] % 16) as usize)
        } else {
            (0, 0)
        };
        let rsp = self.regs[reg_code::RSP as usize];
        match icode {
            inst_code::HALT => {
                self.pc = self.pc + 1;
                return Ok(true);
            },
            inst_code::NOP => {
                self.pc = self.pc + 1;
            },
            inst_code::CMOVX => {
                if self.cc.test(ifun) {
                    let v = self.get_reg(ra);
                    self.set_reg(rb, v);
                }
                self.pc = self.pc + 2;
            },
            inst_code::IRMOVQ => {
                if ra != reg_code::RNONE as usize {
                    return Err(IsaError::InvalidRegister(ra as u8));
                }
                let v = self.read_word(self.pc + 2);
                self.set_reg(rb, v);
                self.pc = self.pc + 10;
            },
            inst_code::RMMOVQ | inst_code::MRMOVQ => {
                let disp = self.read_word(self.pc + 2);
                let addr = self.get_reg(rb).wrapping_add(disp);
                if addr > (MEM_SIZE - 8) as u64 {
                    return Err(IsaError::InvalidAddress(addr));
                }
                if icode == inst_code::RMMOVQ {
                    let v = self.get_reg(ra);
                    self.write_word(addr, v);
                } else {
                    let v = self.read_word(addr);
                    self.set_reg(ra, v);
                }
                self.pc = self.pc + 10;
            },
            inst_code::OPQ | inst_code::IOPQ => {
                if icode == inst_code::IOPQ && ra != reg_code::RNONE as usize {
                    return Err(IsaError::InvalidRegister(ra as u8));
                }
                let va = if icode == inst_code::OPQ {
                    self.get_reg(ra)
                } else {
                    self.read_word(self.pc + 2)
                };
                let vb = self.get_reg(rb);
                let ve = match arithmetic_compute(va, vb, ifun) {
                    Some(ve) => ve,
                    None => {
                        return Err(IsaError::InvalidIfun { icode, ifun });
                    },
                };
                self.cc.set(va, vb, ve, ifun);
                self.set_reg(rb, ve);
                self.pc = self.pc + len as u64;
            },
            inst_code::JX => {
                let dest = self.read_word(self.pc + 1);
                if self.cc.test(ifun) {
                    self.pc = dest;
                } else {
                    self.pc = self.pc + 9;
                }
            },
            inst_code::CALL | inst_code::PUSHQ => {
                let (v, next) = if icode == inst_code::CALL {
                    (self.pc + 9, self.read_word(self.pc + 1))
                } else {
                    (self.get_reg(ra), self.pc + 2)
                };
                if rsp < 8 {
                    return Err(IsaError::RspOverflow);
                }
                if rsp - 8 > (MEM_SIZE - 8) as u64 {
                    return Err(IsaError::InvalidAddress(rsp - 8));
                }
                self.set_reg(reg_code::RSP as usize, rsp - 8);
                self.write_word(rsp - 8, v);
                self.pc = next;
            },
            _ => {
                if rsp > (MEM_SIZE - 8) as u64 {
                    return Err(IsaError::InvalidAddress(rsp));
                }
                let v = self.read_word(rsp);
                self.set_reg(reg_code::RSP as usize, rsp + 8);
                if icode == inst_code::RET {
                    self.pc = v;
                } else {
                    self.set_reg(ra, v);
                    self.pc = self.pc + 2;
                }
            },
        }
        Ok(false)
    }
}

/// Execute Y86 machine code w.r.t. the ISA specification, from `pc` 0 with
/// clear registers and flags, for at most `max_insts` instructions. This
/// function is used to verify the correctness of the pipeline architectures.
///
/// It supports the extended `iopq` instruction.
pub fn simulate(bin: Vec<u8>, max_insts: u64) -> (r: Result<StandardResult, IsaError>)
    requires
        bin@.len() == MEM_SIZE,
    ensures
        result_matches(isa_run(initial_state(bin@), max_insts as nat), r),
{
    let mut m = Machine { mem: bin, regs: [0u64; 16], cc: ConditionCode::default(), pc: 0 };
    let ghost init = m.state();
    assert(init.regs =~= initial_state(init.mem).regs);
    assert(init == initial_state(bin@));
    let mut n_insts: u64 = 0;
    while n_insts < max_insts
        invariant
            n_insts <= max_insts,
            init == initial_state(bin@),
            m.mem@.len() == MEM_SIZE,
            isa_run(init, max_insts as nat) == add_count(isa_run(m.state(), (max_insts - n_insts) as nat), n_insts as nat),
        decreases max_insts - n_insts,
    {
        let ghost before = m.state();
        let ghost fuel = (max_insts - n_insts) as nat;
        let r = m.step();
        proof {
            match isa_step(before) {
                IsaStep::Halt => {
                    assert(isa_run(before, fuel) == IsaRun::Halted(IsaState { pc: (before.pc + 1) as u64, ..before }, 1));
                },
                IsaStep::Fault(e) => {
                    assert(isa_run(before, fuel) == IsaRun::Fault(e));
                },
                IsaStep::Next(t) => {
                    assert(isa_run(before, fuel) == add_count(isa_run(t, (fuel - 1) as nat), 1));
                    assert(add_count(add_count(isa_run(t, (fuel - 1) as nat), 1), n_insts as nat)
                        == add_count(isa_run(t, (fuel - 1) as nat), (n_insts + 1) as nat));
                },
            }
        }
        n_insts = n_insts + 1;
        match r {
            Ok(true) => {
                return Ok(StandardResult { bin: m.mem, cc: m.cc, regs: m.regs, pc: m.pc, n_insts });
            },
            Ok(false) => {},
            Err(e) => {
                return Err(e);
            },
        }
    }
    Err(IsaError::StepLimit)
}

} // verus!
