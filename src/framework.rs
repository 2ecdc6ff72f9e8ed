//! The microarchitecture framework: pipeline stage registers, hardware
//! units, and the simulation of a compiled circuit cycle by cycle.
use vstd::prelude::*;
use vstd::string::StringExecFns;

use crate::hcl::{b2w, SignalDef, StageDecl, Wires, WiresView};
use crate::isa::{spec_arithmetic, spec_cond_holds, ConditionCode};
use crate::order::PropOrder;

verus! {

/// Size of the machine's memory in bytes.
pub const MEM_SIZE: usize = 0x10000;

/// A pipeline stage register: its fields, their defaults, and the two
/// control inputs of the next cycle.
#[derive(Debug, Clone)]
pub struct StageReg {
    pub fields: Vec<u64>,
    pub defaults: Vec<u64>,
    /// If set in the next state, the fields are reset to their defaults at
    /// the end of the cycle.
    pub bubble: bool,
    /// If set in the next state (and `bubble` is not), the fields keep their
    /// values at the end of the cycle.
    pub stall: bool,
}

/// The fields of a stage after the end of a cycle, from its current fields,
/// its defaults and the next state: bubble wins over stall.
pub open spec fn spec_mux(cur: Seq<u64>, defaults: Seq<u64>, next: StageReg) -> Seq<u64> {
    if next.bubble {
        defaults
    } else if next.stall {
        cur
    } else {
        next.fields@
    }
}

impl StageReg {
    pub open spec fn wf(&self) -> bool {
        self.fields@.len() == self.defaults@.len()
    }

    /// A stage holding its defaults, with both controls clear.
    pub fn new(defaults: Vec<u64>) -> (r: Self)
        ensures
            r.wf(),
            r.fields@ == defaults@,
            r.defaults@ == defaults@,
            !r.bubble && !r.stall,
    {
        let mut fields: Vec<u64> = Vec::new();
        let mut i: usize = 0;
        while i < defaults.len()
            invariant
                i <= defaults@.len(),
                fields@ == defaults@.subrange(0, i as int),
            decreases defaults@.len() - i,
        {
            fields.push(defaults[i]);
            i = i + 1;
            assert(fields@ =~= defaults@.subrange(0, i as int));
        }
        assert(fields@ =~= defaults@);
        StageReg { fields, defaults, bubble: false, stall: false }
    }

    /// Select states based on `new.bubble` and `new.stall`; the result is
    /// stored in `self`. Returns `true` when both are set, an illegal
    /// combination that is reported and resolved as a bubble.
    pub fn mux(&mut self, new: &StageReg) -> (conflict: bool)
        requires
            old(self).wf(),
            new.fields@.len() == old(self).fields@.len(),
        ensures
            final(self).wf(),
            final(self).fields@ == spec_mux(old(self).fields@, old(self).defaults@, *new),
            final(self).defaults@ == old(self).defaults@,
            final(self).bubble == old(self).bubble,
            final(self).stall == old(self).stall,
            conflict == (new.bubble && new.stall),
    {
        if new.bubble {
            let mut i: usize = 0;
            while i < self.fields.len()
                invariant
                    self.wf(),
                    i <= self.fields@.len(),
                    self.defaults@ == old(self).defaults@,
                    self.bubble == old(self).bubble,
                    self.stall == old(self).stall,
                    forall|j: int| 0 <= j < i ==> self.fields@[j] == self.defaults@[j],
                decreases self.fields@.len() - i,
            {
                let d = self.defaults[i];
                self.fields.set(i, d);
                i = i + 1;
            }
            assert(self.fields@ =~= self.defaults@);
        } else if !new.stall {
            let mut i: usize = 0;
            while i < self.fields.len()
                invariant
                    self.wf(),
                    new.fields@.len() == self.fields@.len(),
                    i <= self.fields@.len(),
                    self.defaults@ == old(self).defaults@,
                    self.bubble == old(self).bubble,
                    self.stall == old(self).stall,
                    forall|j: int| 0 <= j < i ==> self.fields@[j] == new.fields@[j],
                decreases self.fields@.len() - i,
            {
                self.fields.set(i, new.fields[i]);
                i = i + 1;
            }
            assert(self.fields@ =~= new.fields@);
        }
        new.bubble && new.stall
    }
}

/// Stage-register law: after a cycle whose next state asks for a bubble, the
/// stage holds its defaults; after one that asks only for a stall, it holds
/// what it held; otherwise it holds the next state's fields.
pub proof fn lemma_stage_mux_law(cur: Seq<u64>, defaults: Seq<u64>, next: StageReg)
    ensures
        next.bubble ==> spec_mux(cur, defaults, next) == defaults,
        !next.bubble && next.stall ==> spec_mux(cur, defaults, next) == cur,
        !next.bubble && !next.stall ==> spec_mux(cur, defaults, next) == next.fields@,
{
}

/// What a hardware unit computes from its inputs.
#[derive(Debug, Clone, Copy, PartialEq, Eq, Structural)]
pub enum Device {
    /// Inputs `a`, `b`, `fun`; output `b fun a` (0 for an unknown function).
    Alu,
    /// Inputs `sf`, `of`, `zf`, `cfn`; output 1 if the condition holds.
    CondTest,
    /// Outputs equal to inputs.
    Pass,
    /// Inputs `srcA`, `srcB`; outputs the two registers as latched (0 for
    /// `RNONE` and beyond).
    RegRead,
    /// Inputs `dstE`, `valE`, `dstM`, `valM`, no outputs; at the end of the
    /// cycle `valE` is written to `dstE`, then `valM` to `dstM` (`RNONE`
    /// writes nothing).
    RegWrite,
    /// Inputs `addr`, `read`; outputs the 8-byte word at `addr` and an error
    /// flag for a word outside memory (both 0 when not reading).
    MemRead,
    /// Inputs `addr`, `value`, `write`; output an error flag for a word
    /// outside memory. At the end of the cycle the word is stored.
    MemWrite,
}

/// A unit of the circuit: its device and the ports it reads and writes.
#[derive(Debug, Clone)]
pub struct UnitDef {
    pub device: Device,
    /// Indices of its input ports among all unit inputs.
    pub inputs: Vec<usize>,
    /// Indices of its output ports among all unit outputs.
    pub outputs: Vec<usize>,
}

/// Register `r` as read through a port: 0 for `RNONE` and beyond.
pub open spec fn reg_value(regs: Seq<u64>, r: u64) -> u64 {
    if r < 15 && r < regs.len() {
        regs[r as int]
    } else {
        0
    }
}

/// Whether the 8-byte word at `addr` lies in `mem`.
pub open spec fn word_fits(mem: Seq<u8>, addr: u64) -> bool {
    addr as int + 8 <= mem.len()
}

/// The outputs of a device on inputs `ins`, with the latched register file
/// and memory.
pub open spec fn device_out(d: Device, ins: Seq<u64>, regs: Seq<u64>, mem: Seq<u8>) -> Seq<u64> {
    match d {
        Device::RegRead => seq![reg_value(regs, ins[0]), reg_value(regs, ins[1])],
        Device::RegWrite => Seq::empty(),
        Device::MemRead => if ins[1] == 0 {
            seq![0u64, 0u64]
        } else if word_fits(mem, ins[0]) {
            seq![crate::isa::mem_read(mem, ins[0] as int), 0u64]
        } else {
            seq![0u64, 1u64]
        },
        Device::MemWrite => seq![b2w(ins[2] != 0 && !word_fits(mem, ins[0]))],
        Device::Alu => seq![
            if ins[2] < 256 {
                match spec_arithmetic(ins[0], ins[1], ins[2] as u8) {
                    Some(e) => e,
                    None => 0,
                }
            } else {
                0
            },
        ],
        Device::CondTest => seq![
            b2w(ins[3] < 256 && spec_cond_holds(
                ConditionCode { sf: ins[0] != 0, of: ins[1] != 0, zf: ins[2] != 0 },
                ins[3] as u8,
            )),
        ],
        Device::Pass => ins,
    }
}

/// Number of inputs and outputs of a device with `n` inputs.
pub open spec fn arity_ok(d: Device, n_in: nat, n_out: nat) -> bool {
    match d {
        Device::Alu => n_in == 3 && n_out == 1,
        Device::CondTest => n_in == 4 && n_out == 1,
        Device::Pass => n_in == n_out,
        Device::RegRead => n_in == 2 && n_out == 2,
        Device::RegWrite => n_in == 4 && n_out == 0,
        Device::MemRead => n_in == 2 && n_out == 2,
        Device::MemWrite => n_in == 3 && n_out == 1,
    }
}

/// Number of outputs of a device with `n_in` inputs.
pub open spec fn out_count(d: Device, n_in: nat) -> nat {
    match d {
        Device::Pass => n_in,
        Device::RegRead | Device::MemRead => 2,
        Device::RegWrite => 0,
        _ => 1,
    }
}

fn run_device(d: Device, ins: &Vec<u64>, regs: &Vec<u64>, mem: &Vec<u8>) -> (outs: Vec<u64>)
    requires
        arity_ok(d, ins@.len(), out_count(d, ins@.len() as nat)),
    ensures
        outs@ == device_out(d, ins@, regs@, mem@),
{
    match d {
        Device::RegRead => {
            let mut outs: Vec<u64> = Vec::new();
            outs.push(if ins[0] < 15 && ins[0] < regs.len() as u64 { regs[ins[0] as usize] } else { 0 });
            outs.push(if ins[1] < 15 && ins[1] < regs.len() as u64 { regs[ins[1] as usize] } else { 0 });
            assert(outs@ =~= device_out(d, ins@, regs@, mem@));
            outs
        },
        Device::RegWrite => {
            let outs: Vec<u64> = Vec::new();
            assert(outs@ =~= device_out(d, ins@, regs@, mem@));
            outs
        },
        Device::MemRead => {
            let mut outs: Vec<u64> = Vec::new();
            if ins[1] == 0 {
                outs.push(0);
                outs.push(0);
            } else if ins[0] <= mem.len() as u64 && mem.len() as u64 - ins[0] >= 8 {
                let a = ins[0] as usize;
                let w = vstd::slice::slice_subrange(mem.as_slice(), a, a + 8);
                assert(crate::utils::first8(w@) =~= mem@.subrange(a as int, a + 8));
                outs.push(crate::utils::get_u64(w));
                outs.push(0);
            } else {
                outs.push(0);
                outs.push(1);
            }
            assert(outs@ =~= device_out(d, ins@, regs@, mem@));
            outs
        },
        Device::MemWrite => {
            let mut outs: Vec<u64> = Vec::new();
            let fits = ins[0] <= mem.len() as u64 && mem.len() as u64 - ins[0] >= 8;
            outs.push(if ins[2] != 0 && !fits { 1 } else { 0 });
            assert(outs@ =~= device_out(d, ins@, regs@, mem@));
            outs
        },
        Device::Alu => {
            let e = if ins[2] < 256 {
                match crate::isa::arithmetic_compute(ins[0], ins[1], ins[2] as u8) {
                    Some(e) => e,
                    None => 0,
                }
            } else {
                0
            };
            let mut outs: Vec<u64> = Vec::new();
            outs.push(e);
            assert(outs@ =~= device_out(d, ins@, regs@, mem@));
            outs
        },
        Device::CondTest => {
            let cc = ConditionCode { sf: ins[0] != 0, of: ins[1] != 0, zf: ins[2] != 0 };
            let c: u64 = if ins[3] < 256 && cc.test(ins[3] as u8) { 1 } else { 0 };
            let mut outs: Vec<u64> = Vec::new();
            outs.push(c);
            assert(outs@ =~= device_out(d, ins@, regs@, mem@));
            outs
        },
        Device::Pass => {
            let mut outs: Vec<u64> = Vec::new();
            let mut i: usize = 0;
            while i < ins.len()
                invariant
                    i <= ins@.len(),
                    outs@ == ins@.subrange(0, i as int),
                decreases ins@.len() - i,
            {
                outs.push(ins[i]);
                i = i + 1;
                assert(outs@ =~= ins@.subrange(0, i as int));
            }
            assert(outs@ =~= ins@);
            outs
        },
    }
}

/// The values a unit reads from its input ports.
pub open spec fn unit_inputs(w: WiresView, u: UnitDef) -> Seq<u64> {
    Seq::new(u.inputs@.len(), |i: int| w.unit_in[u.inputs@[i] as int])
}

/// `outs` written to the first `k` ports of `ports`.
pub open spec fn scatter(out: Seq<u64>, ports: Seq<usize>, outs: Seq<u64>, k: int) -> Seq<u64>
    decreases k,
{
    if k <= 0 {
        out
    } else {
        scatter(out, ports, outs, k - 1).update(ports[k - 1] as int, outs[k - 1])
    }
}

/// The wires after unit `u` runs: its outputs written to its output ports.
pub open spec fn run_unit(w: WiresView, u: UnitDef) -> WiresView {
    let outs = device_out(u.device, unit_inputs(w, u), w.regs, w.mem);
    WiresView { unit_out: scatter(w.unit_out, u.outputs@, outs, u.outputs@.len() as int), ..w }
}

/// What a node of the order does when reached.
#[derive(Debug, Clone, Copy, PartialEq, Eq, Structural)]
pub enum NodeAction {
    /// Run this unit.
    Unit(usize),
    /// Run the updater of this signal definition.
    Signal(usize),
    /// A port: nothing to do.
    Port,
}

/// The compiled circuit: the order, and what each node does.
#[derive(Debug)]
pub struct PropCircuit {
    pub order: PropOrder,
    pub actions: Vec<NodeAction>,
    pub units: Vec<UnitDef>,
    pub signals: Vec<SignalDef>,
}

/// Whether two wire sets have the same places.
pub open spec fn same_shape(a: WiresView, b: WiresView) -> bool {
    &&& a.unit_in.len() == b.unit_in.len()
    &&& a.unit_out.len() == b.unit_out.len()
    &&& a.inter.len() == b.inter.len()
    &&& a.cur.len() == b.cur.len()
    &&& a.next.len() == b.next.len()
    &&& a.next_bubble.len() == b.next_bubble.len()
    &&& a.next_stall.len() == b.next_stall.len()
}

impl PropCircuit {
    pub open spec fn unit_ok(&self, w: WiresView, u: UnitDef) -> bool {
        &&& arity_ok(u.device, u.inputs@.len() as nat, u.outputs@.len() as nat)
        &&& forall|i: int| 0 <= i < u.inputs@.len() ==> #[trigger] u.inputs@[i] < w.unit_in.len()
        &&& forall|i: int| 0 <= i < u.outputs@.len() ==> #[trigger] u.outputs@[i] < w.unit_out.len()
    }

    /// Every node has an action, every action names an existing unit or
    /// signal, and these only touch places of `w`.
    pub open spec fn wf(&self, w: WiresView) -> bool {
        &&& self.order.wf()
        &&& self.actions@.len() == self.order.nodes@.len()
        &&& forall|v: int| 0 <= v < self.actions@.len() ==> match #[trigger] self.actions@[v] {
            NodeAction::Unit(u) => u < self.units@.len(),
            NodeAction::Signal(d) => d < self.signals@.len(),
            NodeAction::Port => true,
        }
        &&& forall|u: int| 0 <= u < self.units@.len() ==> self.unit_ok(w, #[trigger] self.units@[u])
        &&& forall|d: int| 0 <= d < self.signals@.len() ==> w.def_ok(#[trigger] self.signals@[d])
    }

    /// The wires and the tunnel trace after node `v` runs.
    pub open spec fn run_node(&self, w: WiresView, v: int) -> (WiresView, Seq<usize>) {
        match self.actions@[v] {
            NodeAction::Unit(u) => (run_unit(w, self.units@[u as int]), Seq::empty()),
            NodeAction::Signal(d) => (w.update(self.signals@[d as int]), w.update_trace(self.signals@[d as int])),
            NodeAction::Port => (w, Seq::empty()),
        }
    }

    /// The wires and the trace after the first `k` nodes of the order run.
    pub open spec fn walk(&self, w: WiresView, k: int) -> (WiresView, Seq<usize>)
        decreases k,
    {
        if k <= 0 {
            (w, Seq::empty())
        } else {
            let (w1, t1) = self.walk(w, k - 1);
            let (w2, t2) = self.run_node(w1, self.order.order@[k - 1] as int);
            (w2, t1 + t2)
        }
    }

    /// One propagation: every node once, in order.
    pub open spec fn propagate(&self, w: WiresView) -> (WiresView, Seq<usize>) {
        self.walk(w, self.order.order@.len() as int)
    }
}

pub proof fn lemma_scatter_len(out: Seq<u64>, ports: Seq<usize>, outs: Seq<u64>, k: int)
    requires
        k <= ports.len(),
        forall|i: int| 0 <= i < ports.len() ==> #[trigger] ports[i] < out.len(),
    ensures
        scatter(out, ports, outs, k).len() == out.len(),
    decreases k,
{
    if k > 0 {
        lemma_scatter_len(out, ports, outs, k - 1);
    }
}

impl PropCircuit {
    /// Run unit `u` on the wires.
    fn exec_unit(&self, w: &mut Wires, u: usize)
        requires
            u < self.units@.len(),
            self.unit_ok(old(w).view(), self.units@[u as int]),
        ensures
            final(w).view() == run_unit(old(w).view(), self.units@[u as int]),
    {
        let unit = &self.units[u];
        let ghost w0 = w.view();
        let mut ins: Vec<u64> = Vec::new();
        let mut i: usize = 0;
        while i < unit.inputs.len()
            invariant
                self.unit_ok(w0, *unit),
                w.view() == w0,
                i <= unit.inputs@.len(),
                ins@ == unit_inputs(w0, *unit).subrange(0, i as int),
            decreases unit.inputs@.len() - i,
        {
            ins.push(w.unit_in[unit.inputs[i]]);
            i = i + 1;
            assert(ins@ =~= unit_inputs(w0, *unit).subrange(0, i as int));
        }
        assert(ins@ =~= unit_inputs(w0, *unit));
        let outs = run_device(unit.device, &ins, &w.regs, &w.mem);
        let mut j: usize = 0;
        while j < unit.outputs.len()
            invariant
                self.unit_ok(w0, *unit),
                outs@ == device_out(unit.device, unit_inputs(w0, *unit), w0.regs, w0.mem),
                outs@.len() == unit.outputs@.len(),
                j <= unit.outputs@.len(),
                w.view() == (WiresView { unit_out: scatter(w0.unit_out, unit.outputs@, outs@, j as int), ..w0 }),
            decreases unit.outputs@.len() - j,
        {
            proof {
                lemma_scatter_len(w0.unit_out, unit.outputs@, outs@, j as int);
            }
            w.unit_out.set(unit.outputs[j], outs[j]);
            j = j + 1;
        }
    }
}

/// The register file after the clocked writes of the first `k` units.
pub open spec fn clock_regs(units: Seq<UnitDef>, w: WiresView, k: int) -> Seq<u64>
    decreases k,
{
    if k <= 0 {
        w.regs
    } else {
        let r = clock_regs(units, w, k - 1);
        let u = units[k - 1];
        if u.device == Device::RegWrite {
            let ins = unit_inputs(w, u);
            let r1 = if ins[0] < 15 && ins[0] < r.len() { r.update(ins[0] as int, ins[1]) } else { r };
            if ins[2] < 15 && ins[2] < r1.len() { r1.update(ins[2] as int, ins[3]) } else { r1 }
        } else {
            r
        }
    }
}

/// The memory after the clocked writes of the first `k` units.
pub open spec fn clock_mem(units: Seq<UnitDef>, w: WiresView, k: int) -> Seq<u8>
    decreases k,
{
    if k <= 0 {
        w.mem
    } else {
        let m = clock_mem(units, w, k - 1);
        let u = units[k - 1];
        if u.device == Device::MemWrite {
            let ins = unit_inputs(w, u);
            if ins[2] != 0 && word_fits(m, ins[0]) { crate::isa::mem_write(m, ins[0] as int, ins[1]) } else { m }
        } else {
            m
        }
    }
}

proof fn lemma_clock_mem_len(units: Seq<UnitDef>, w: WiresView, k: int)
    ensures
        clock_mem(units, w, k).len() == w.mem.len(),
    decreases k,
{
    if k > 0 {
        lemma_clock_mem_len(units, w, k - 1);
    }
}

proof fn lemma_clock_regs_len(units: Seq<UnitDef>, w: WiresView, k: int)
    ensures
        clock_regs(units, w, k).len() == w.regs.len(),
    decreases k,
{
    if k > 0 {
        lemma_clock_regs_len(units, w, k - 1);
    }
}

/// Store the 8-byte little-endian word `v` at `addr`.
fn store_word(mem: &mut Vec<u8>, addr: usize, v: u64)
    requires
        addr + 8 <= old(mem)@.len(),
    ensures
        final(mem)@ == crate::isa::mem_write(old(mem)@, addr as int, v),
{
    let n = mem.len();
    let mut x: u64 = v;
    let mut i: usize = 0;
    while i < 8
        invariant
            i <= 8,
            n == mem@.len(),
            addr + 8 <= mem@.len(),
            mem@.len() == old(mem)@.len(),
            x as nat == crate::utils::shift_bytes(v as nat, i as nat),
            forall|j: int| 0 <= j < mem@.len() ==> #[trigger] mem@[j] == (if addr <= j < addr + i {
                crate::utils::byte_at(v as nat, (j - addr) as nat)
            } else {
                old(mem)@[j]
            }),
        decreases 8 - i,
    {
        proof {
            crate::utils::lemma_byte_at_shift(v as nat, i as nat);
        }
        mem.set(addr + i, (x % 256) as u8);
        x = x / 256;
        i = i + 1;
    }
    assert(mem@ =~= crate::isa::mem_write(old(mem)@, addr as int, v));
}

/// A simulated CPU: the compiled circuit, its wires, and the counters.
#[derive(Debug)]
pub struct PipeSim {
    pub circuit: PropCircuit,
    pub wires: Wires,
    /// The stage each stage field belongs to.
    pub stage_of: Vec<usize>,
    /// The default of each stage field.
    pub defaults: Vec<u64>,
    /// The intermediate signal that holds the program counter.
    pub pc_signal: usize,
    /// The intermediate signal that ends the simulation when not zero.
    pub term_signal: usize,
    pub cycle_count: u64,
    pub terminate: bool,
}

/// A stage field after the end of a cycle: bubble wins, then stall, else
/// the next state.
pub open spec fn mux_field(w: WiresView, stage_of: Seq<usize>, defaults: Seq<u64>, i: int) -> u64 {
    let s = stage_of[i] as int;
    if w.next_bubble[s] {
        defaults[i]
    } else if w.next_stall[s] {
        w.cur[i]
    } else {
        w.next[i]
    }
}

impl PipeSim {
    pub open spec fn wf(&self) -> bool {
        let w = self.wires.view();
        &&& self.circuit.wf(w)
        &&& self.stage_of@.len() == w.cur.len()
        &&& w.next.len() == w.cur.len()
        &&& self.defaults@.len() == w.cur.len()
        &&& w.next_stall.len() == w.next_bubble.len()
        &&& forall|i: int| 0 <= i < self.stage_of@.len() ==> #[trigger] self.stage_of@[i] < w.next_bubble.len()
        &&& self.pc_signal < w.inter.len()
        &&& self.term_signal < w.inter.len()
        &&& w.regs.len() == 16
    }

    /// Run one propagation over the precomputed order, count the cycle, and
    /// raise `terminate` if the termination signal is set. Returns the
    /// tunnels reported.
    pub fn propagate_signals(&mut self) -> (trace: Vec<usize>)
        requires
            old(self).wf(),
        ensures
            final(self).wf(),
            final(self).wires.view() == old(self).circuit.propagate(old(self).wires.view()).0,
            trace@ == old(self).circuit.propagate(old(self).wires.view()).1,
            final(self).circuit == old(self).circuit,
            final(self).stage_of == old(self).stage_of,
            final(self).defaults == old(self).defaults,
            final(self).pc_signal == old(self).pc_signal,
            final(self).term_signal == old(self).term_signal,
            final(self).cycle_count == (if old(self).cycle_count < u64::MAX {
                old(self).cycle_count + 1
            } else {
                old(self).cycle_count as int
            }),
            final(self).terminate == (old(self).terminate || final(self).wires.view().inter[old(self).term_signal as int] != 0),
    {
        let ghost w0 = self.wires.view();
        let mut trace: Vec<usize> = Vec::new();
        let mut k: usize = 0;
        let n = self.circuit.order.order.len();
        while k < n
            invariant
                self.wf(),
                self.circuit == old(self).circuit,
                self.stage_of == old(self).stage_of,
                self.defaults == old(self).defaults,
                self.pc_signal == old(self).pc_signal,
                self.term_signal == old(self).term_signal,
                self.cycle_count == old(self).cycle_count,
                self.terminate == old(self).terminate,
                n == self.circuit.order.order@.len(),
                k <= n,
                same_shape(self.wires.view(), w0),
                self.wires.view().cur == w0.cur,
                (self.wires.view(), trace@) == self.circuit.walk(w0, k as int),
            decreases n - k,
        {
            let v = self.circuit.order.order[k];
            let ghost wk = self.wires.view();
            proof {
                assert(v < self.circuit.order.nodes@.len());
            }
            match self.circuit.actions[v] {
                NodeAction::Unit(u) => {
                    assert(self.circuit.unit_ok(wk, self.circuit.units@[u as int]));
                    self.circuit.exec_unit(&mut self.wires, u);
                    proof {
                        let un = self.circuit.units@[u as int];
                        lemma_scatter_len(wk.unit_out, un.outputs@, device_out(un.device, unit_inputs(wk, un), wk.regs, wk.mem), un.outputs@.len() as int);
                    }
                },
                NodeAction::Signal(d) => {
                    assert(wk.def_ok(self.circuit.signals@[d as int]));
                    self.circuit.signals[d].update(&mut self.wires, &mut trace);
                    proof {
                        crate::hcl::lemma_update_shape(wk, self.circuit.signals@[d as int]);
                    }
                },
                NodeAction::Port => {},
            }
            proof {
                let wn = self.wires.view();
                assert forall|d: int| 0 <= d < self.circuit.signals@.len() implies wn.def_ok(#[trigger] self.circuit.signals@[d]) by {
                    crate::hcl::lemma_def_ok_shape(wk, wn, self.circuit.signals@[d]);
                }
                assert forall|u: int| 0 <= u < self.circuit.units@.len() implies self.circuit.unit_ok(wn, #[trigger] self.circuit.units@[u]) by {
                    assert(self.circuit.unit_ok(wk, self.circuit.units@[u]));
                }
            }
            k = k + 1;
        }
        if self.cycle_count < u64::MAX {
            self.cycle_count = self.cycle_count + 1;
        }
        if self.wires.inter[self.term_signal] != 0 {
            self.terminate = true;
        }
        trace
    }
}

impl PipeSim {
    /// Apply the stage mux to every stage field at the end of the cycle.
    /// Returns, per stage, whether `bubble` and `stall` were both set: an
    /// illegal combination that is reported and resolved as a bubble.
    pub fn initiate_next_cycle(&mut self) -> (conflicts: Vec<bool>)
        requires
            old(self).wf(),
        ensures
            final(self).wf(),
            final(self).wires.view() == (WiresView {
                cur: Seq::new(old(self).wires.cur@.len(), |i: int| mux_field(old(self).wires.view(), old(self).stage_of@, old(self).defaults@, i)),
                regs: clock_regs(old(self).circuit.units@, old(self).wires.view(), old(self).circuit.units@.len() as int),
                mem: clock_mem(old(self).circuit.units@, old(self).wires.view(), old(self).circuit.units@.len() as int),
                ..old(self).wires.view()
            }),
            final(self).circuit == old(self).circuit,
            final(self).stage_of == old(self).stage_of,
            final(self).defaults == old(self).defaults,
            final(self).pc_signal == old(self).pc_signal,
            final(self).term_signal == old(self).term_signal,
            final(self).cycle_count == old(self).cycle_count,
            final(self).terminate == old(self).terminate,
            conflicts@.len() == old(self).wires.next_bubble@.len(),
            forall|s: int| 0 <= s < conflicts@.len() ==> #[trigger] conflicts@[s] == (old(self).wires.next_bubble@[s] && old(self).wires.next_stall@[s]),
    {
        let ghost w0 = self.wires.view();
        let mut i: usize = 0;
        while i < self.wires.cur.len()
            invariant
                self.circuit == old(self).circuit,
                self.stage_of == old(self).stage_of,
                self.defaults == old(self).defaults,
                self.pc_signal == old(self).pc_signal,
                self.term_signal == old(self).term_signal,
                self.cycle_count == old(self).cycle_count,
                self.terminate == old(self).terminate,
                old(self).wf(),
                w0 == old(self).wires.view(),
                i <= w0.cur.len(),
                self.wires.view() == (WiresView { cur: self.wires.cur@, ..w0 }),
                self.wires.cur@.len() == w0.cur.len(),
                forall|j: int| 0 <= j < i ==> self.wires.cur@[j] == mux_field(w0, self.stage_of@, self.defaults@, j),
                forall|j: int| i <= j < w0.cur.len() ==> self.wires.cur@[j] == w0.cur[j],
            decreases w0.cur.len() - i,
        {
            let s = self.stage_of[i];
            let v = if self.wires.next_bubble[s] {
                self.defaults[i]
            } else if self.wires.next_stall[s] {
                self.wires.cur[i]
            } else {
                self.wires.next[i]
            };
            self.wires.cur.set(i, v);
            i = i + 1;
        }
        assert(self.wires.cur@ =~= Seq::new(w0.cur.len(), |i: int| mux_field(w0, self.stage_of@, self.defaults@, i)));
        let ghost w_cur = self.wires.view();
        let mut u: usize = 0;
        while u < self.circuit.units.len()
            invariant
                self.circuit == old(self).circuit,
                self.stage_of == old(self).stage_of,
                self.defaults == old(self).defaults,
                self.pc_signal == old(self).pc_signal,
                self.term_signal == old(self).term_signal,
                self.cycle_count == old(self).cycle_count,
                self.terminate == old(self).terminate,
                old(self).wf(),
                w0 == old(self).wires.view(),
                u <= self.circuit.units@.len(),
                self.wires.view() == (WiresView {
                    regs: clock_regs(self.circuit.units@, w0, u as int),
                    mem: clock_mem(self.circuit.units@, w0, u as int),
                    ..w_cur
                }),
                w_cur == (WiresView { cur: w_cur.cur, ..w0 }),
            decreases self.circuit.units@.len() - u,
        {
            let unit = &self.circuit.units[u];
            assert(self.circuit.unit_ok(w0, *unit));
            proof {
                lemma_clock_regs_len(self.circuit.units@, w0, u as int);
                lemma_clock_mem_len(self.circuit.units@, w0, u as int);
            }
            match unit.device {
                Device::RegWrite => {
                    let dst_e = self.wires.unit_in[unit.inputs[0]];
                    let val_e = self.wires.unit_in[unit.inputs[1]];
                    let dst_m = self.wires.unit_in[unit.inputs[2]];
                    let val_m = self.wires.unit_in[unit.inputs[3]];
                    if dst_e < 15 && dst_e < self.wires.regs.len() as u64 {
                        self.wires.regs.set(dst_e as usize, val_e);
                    }
                    if dst_m < 15 && dst_m < self.wires.regs.len() as u64 {
                        self.wires.regs.set(dst_m as usize, val_m);
                    }
                },
                Device::MemWrite => {
                    let addr = self.wires.unit_in[unit.inputs[0]];
                    let value = self.wires.unit_in[unit.inputs[1]];
                    let write = self.wires.unit_in[unit.inputs[2]];
                    if write != 0 && addr <= self.wires.mem.len() as u64 && self.wires.mem.len() as u64 - addr >= 8 {
                        store_word(&mut self.wires.mem, addr as usize, value);
                    }
                },
                _ => {},
            }
            u = u + 1;
        }
        proof {
            lemma_clock_regs_len(self.circuit.units@, w0, self.circuit.units@.len() as int);
            let wn = self.wires.view();
            assert forall|d: int| 0 <= d < self.circuit.signals@.len() implies wn.def_ok(#[trigger] self.circuit.signals@[d]) by {
                crate::hcl::lemma_def_ok_shape(w0, wn, self.circuit.signals@[d]);
            }
            assert forall|u: int| 0 <= u < self.circuit.units@.len() implies self.circuit.unit_ok(wn, #[trigger] self.circuit.units@[u]) by {
                assert(self.circuit.unit_ok(w0, self.circuit.units@[u]));
            }
        }
        let mut conflicts: Vec<bool> = Vec::new();
        let mut s: usize = 0;
        while s < self.wires.next_bubble.len()
            invariant
                self.wires.next_bubble@ == w0.next_bubble,
                self.wires.next_stall@ == w0.next_stall,
                w0.next_stall.len() == w0.next_bubble.len(),
                s <= w0.next_bubble.len(),
                conflicts@.len() == s,
                forall|t: int| 0 <= t < s ==> #[trigger] conflicts@[t] == (w0.next_bubble[t] && w0.next_stall[t]),
            decreases w0.next_bubble.len() - s,
        {
            conflicts.push(self.wires.next_bubble[s] && self.wires.next_stall[s]);
            s = s + 1;
        }
        conflicts
    }

    /// The counters and wires of the simulation.
    pub open spec fn state(&self) -> SimState {
        SimState { wires: self.wires.view(), cycle_count: self.cycle_count, terminate: self.terminate }
    }

    /// The fixed part of the simulation.
    pub open spec fn config(&self) -> SimConfig {
        SimConfig {
            circuit: self.circuit,
            stage_of: self.stage_of@,
            defaults: self.defaults@,
            term_signal: self.term_signal,
        }
    }

    /// Propagate, then, unless the simulation terminated, latch the next
    /// cycle. Returns the tunnels reported.
    pub fn step(&mut self) -> (report: StepReport)
        requires
            old(self).wf(),
        ensures
            final(self).wf(),
            final(self).config() == old(self).config(),
            final(self).pc_signal == old(self).pc_signal,
            final(self).state() == spec_step(old(self).config(), old(self).state()),
            report.trace@ == old(self).circuit.propagate(old(self).wires.view()).1,
            ({
                let p = spec_propagated(old(self).config(), old(self).state());
                if p.terminate {
                    report.conflicts@.len() == 0
                } else {
                    &&& report.conflicts@.len() == p.wires.next_bubble.len()
                    &&& forall|s: int| 0 <= s < report.conflicts@.len() ==> #[trigger] report.conflicts@[s] == (p.wires.next_bubble[s] && p.wires.next_stall[s])
                }
            }),
    {
        let trace = self.propagate_signals();
        let conflicts = if !self.terminate {
            self.initiate_next_cycle()
        } else {
            Vec::new()
        };
        StepReport { trace, conflicts }
    }

    /// Value of the program-counter signal at the last propagation.
    pub fn program_counter(&self) -> (r: u64)
        requires
            self.wf(),
        ensures
            r == self.wires.inter@[self.pc_signal as int],
    {
        self.wires.inter[self.pc_signal]
    }

    /// The register file as latched at the end of the last cycle.
    pub fn registers(&self) -> (r: crate::isa::RegFile)
        requires
            self.wf(),
        ensures
            r@ == self.wires.regs@,
    {
        let mut r = [0u64; 16];
        let mut i: usize = 0;
        while i < 16
            invariant
                self.wires.regs@.len() == 16,
                i <= 16,
                forall|j: int| 0 <= j < i ==> r@[j] == self.wires.regs@[j],
            decreases 16 - i,
        {
            r[i] = self.wires.regs[i];
            i = i + 1;
        }
        assert(r@ =~= self.wires.regs@);
        r
    }

    pub fn is_terminate(&self) -> (r: bool)
        ensures
            r == self.terminate,
    {
        self.terminate
    }

    pub fn cycle_count(&self) -> (r: u64)
        ensures
            r == self.cycle_count,
    {
        self.cycle_count
    }

    /// The cycle cost: the number of units on the longest dependency chain.
    pub fn cycle_cost(&self) -> (r: u64)
        ensures
            r == self.circuit.order.max_dist,
    {
        self.circuit.order.max_dist as u64
    }

    /// The evaluation order, for diagnostics.
    pub fn proporder(&self) -> (r: &PropOrder)
        ensures
            r == &self.circuit.order,
    {
        &self.circuit.order
    }
}


/// What one `step` reported: the tunnels that fired, and per stage whether
/// `bubble` and `stall` were both asked for (empty when the step
/// terminated the simulation, which latches nothing).
#[derive(Debug, Clone)]
pub struct StepReport {
    pub trace: Vec<usize>,
    pub conflicts: Vec<bool>,
}

/// Whether the run from `s0` stops at step `j`: terminated, at the cycle
/// bound, or (after at least one step) at a breakpoint.
pub open spec fn stops_at(c: SimConfig, s0: SimState, j: nat, bps: Seq<u64>, max: u64, pc_signal: usize) -> bool {
    let st = spec_steps(c, s0, j);
    st.terminate || st.cycle_count >= max || (j >= 1 && bps.contains(pc_of(st, pc_signal)))
}

/// What stays fixed while a simulation runs.
pub struct SimConfig {
    pub circuit: PropCircuit,
    pub stage_of: Seq<usize>,
    pub defaults: Seq<u64>,
    pub term_signal: usize,
}

/// What changes while a simulation runs.
pub struct SimState {
    pub wires: WiresView,
    pub cycle_count: u64,
    pub terminate: bool,
}

/// The state after one propagation.
pub open spec fn spec_propagated(c: SimConfig, s: SimState) -> SimState {
    let w = c.circuit.propagate(s.wires).0;
    SimState {
        wires: w,
        cycle_count: if s.cycle_count < u64::MAX { (s.cycle_count + 1) as u64 } else { s.cycle_count },
        terminate: s.terminate || w.inter[c.term_signal as int] != 0,
    }
}

/// The state after the stage mux at the end of a cycle.
pub open spec fn spec_latched(c: SimConfig, s: SimState) -> SimState {
    SimState {
        wires: WiresView {
            cur: Seq::new(s.wires.cur.len(), |i: int| mux_field(s.wires, c.stage_of, c.defaults, i)),
            regs: clock_regs(c.circuit.units@, s.wires, c.circuit.units@.len() as int),
            mem: clock_mem(c.circuit.units@, s.wires, c.circuit.units@.len() as int),
            ..s.wires
        },
        ..s
    }
}

/// One `step`: propagate, then latch unless terminated.
pub open spec fn spec_step(c: SimConfig, s: SimState) -> SimState {
    let p = spec_propagated(c, s);
    if p.terminate {
        p
    } else {
        spec_latched(c, p)
    }
}

/// The state after `n` steps.
pub open spec fn spec_steps(c: SimConfig, s: SimState, n: nat) -> SimState
    decreases n,
{
    if n == 0 {
        s
    } else {
        spec_step(c, spec_steps(c, s, (n - 1) as nat))
    }
}

/// Determinism: for a fixed circuit and initial state, the cycle count, the
/// termination flag, the program counter and every signal after `n` steps
/// are functions of `n`.
pub proof fn lemma_steps_deterministic(c: SimConfig, s: SimState, t: SimState, n: nat, pc_signal: int)
    requires
        s == t,
    ensures
        spec_steps(c, s, n) == spec_steps(c, t, n),
        spec_steps(c, s, n).cycle_count == spec_steps(c, t, n).cycle_count,
        spec_steps(c, s, n).terminate == spec_steps(c, t, n).terminate,
        spec_steps(c, s, n).wires.inter[pc_signal] == spec_steps(c, t, n).wires.inter[pc_signal],
{
}

/// One stage title and the signals listed under it, with their values.
#[derive(Debug, Clone)]
pub struct StageInfo {
    pub name: String,
    pub signals: Vec<(String, String)>,
}

/// `0x` and the lowercase hexadecimal digits of `v`.
pub open spec fn hex_value(v: u64) -> Seq<char> {
    seq!['0', 'x'] + crate::utils::hex_text(v as nat)
}

/// The `(name, value)` entries of the first `k` signals that belong to
/// stage `s`.
pub open spec fn stage_entries(names: Seq<String>, stage_of: Seq<usize>, vals: Seq<u64>, s: int, k: int) -> Seq<(Seq<char>, Seq<char>)>
    decreases k,
{
    if k <= 0 {
        Seq::empty()
    } else {
        let rest = stage_entries(names, stage_of, vals, s, k - 1);
        if stage_of[k - 1] == s {
            rest.push((names[k - 1]@, hex_value(vals[k - 1])))
        } else {
            rest
        }
    }
}

pub open spec fn entries_view(v: Seq<(String, String)>) -> Seq<(Seq<char>, Seq<char>)> {
    Seq::new(v.len(), |i: int| (v[i].0@, v[i].1@))
}

impl PipeSim {
    /// The stage titles with, under each, the intermediate signals declared
    /// in that stage (`signal_stage`) and their values at the last
    /// propagation. With no titles, a single `(default)` stage holds all.
    pub fn get_stage_info(&self, titles: &Vec<StageDecl>, signal_names: &Vec<String>, signal_stage: &Vec<usize>) -> (r: Vec<StageInfo>)
        requires
            signal_names@.len() == self.wires.inter@.len(),
            signal_stage@.len() == self.wires.inter@.len(),
            forall|i: int| 0 <= i < signal_stage@.len() ==> #[trigger] signal_stage@[i] < titles@.len() || titles@.len() == 0,
        ensures
            r@.len() == (if titles@.len() == 0 { 1 } else { titles@.len() }),
            titles@.len() == 0 ==> r@[0].name@ == "(default)"@,
            forall|s: int| 0 <= s < titles@.len() ==> (#[trigger] r@[s]).name@ == titles@[s].name@,
            forall|s: int| 0 <= s < r@.len() ==> entries_view((#[trigger] r@[s]).signals@) == stage_entries(
                signal_names@,
                if titles@.len() == 0 { Seq::new(signal_stage@.len(), |i: int| 0usize) } else { signal_stage@ },
                self.wires.inter@,
                s,
                signal_names@.len() as int,
            ),
    {
        let ghost stages = if titles@.len() == 0 { Seq::new(signal_stage@.len(), |i: int| 0usize) } else { signal_stage@ };
        let n_stages: usize = if titles.len() == 0 { 1 } else { titles.len() };
        let mut info: Vec<StageInfo> = Vec::new();
        let mut s: usize = 0;
        while s < n_stages
            invariant
                n_stages == (if titles@.len() == 0 { 1 } else { titles@.len() }),
                s <= n_stages,
                info@.len() == s,
                titles@.len() == 0 && s > 0 ==> info@[0].name@ == "(default)"@,
                forall|t: int| 0 <= t < s && t < titles@.len() ==> (#[trigger] info@[t]).name@ == titles@[t].name@,
                forall|t: int| 0 <= t < s ==> (#[trigger] info@[t]).signals@.len() == 0,
            decreases n_stages - s,
        {
            let name = if titles.len() == 0 {
                String::from_str("(default)")
            } else {
                titles[s].name.clone()
            };
            info.push(StageInfo { name, signals: Vec::new() });
            s = s + 1;
        }
        assert forall|t: int| 0 <= t < n_stages implies entries_view(info@[t].signals@) == stage_entries(signal_names@, stages, self.wires.inter@, t, 0) by {
            assert(entries_view(info@[t].signals@) =~= Seq::empty());
        }
        let mut k: usize = 0;
        while k < signal_names.len()
            invariant
                signal_names@.len() == self.wires.inter@.len(),
                signal_stage@.len() == self.wires.inter@.len(),
                stages == (if titles@.len() == 0 { Seq::new(signal_stage@.len(), |i: int| 0usize) } else { signal_stage@ }),
                forall|i: int| 0 <= i < signal_stage@.len() ==> #[trigger] signal_stage@[i] < titles@.len() || titles@.len() == 0,
                n_stages == (if titles@.len() == 0 { 1 } else { titles@.len() }),
                info@.len() == n_stages,
                k <= signal_names@.len(),
                titles@.len() == 0 ==> info@[0].name@ == "(default)"@,
                forall|t: int| 0 <= t < titles@.len() ==> (#[trigger] info@[t]).name@ == titles@[t].name@,
                forall|t: int| 0 <= t < n_stages ==> entries_view((#[trigger] info@[t]).signals@) == stage_entries(signal_names@, stages, self.wires.inter@, t, k as int),
            decreases signal_names@.len() - k,
        {
            let st: usize = if titles.len() == 0 { 0 } else { signal_stage[k] };
            let mut value = String::from_str("0x");
            crate::utils::push_hex(&mut value, self.wires.inter[k]);
            proof {
                reveal_strlit("0x");
                assert(value@ =~= hex_value(self.wires.inter@[k as int]));
            }
            let nm = signal_names[k].clone();
            assert(nm@ == signal_names@[k as int]@);
            let ghost before = info@;
            let mut entry = info.remove(st);
            let ghost old_signals = entry.signals@;
            let ghost pair = (nm@, value@);
            entry.signals.push((nm, value));
            assert(entries_view(entry.signals@) =~= entries_view(old_signals).push(pair));
            info.insert(st, entry);
            proof {
                assert forall|t: int| 0 <= t < n_stages implies entries_view((#[trigger] info@[t]).signals@) == stage_entries(signal_names@, stages, self.wires.inter@, t, k + 1) by {
                    if t == st {
                        assert(old_signals == before[t].signals@);
                    } else {
                        assert(info@[t] == before[t]);
                    }
                }
            }
            k = k + 1;
        }
        info
    }
}

/// Options of a simulation session: the architecture to run and a bound on
/// the number of cycles.
#[derive(Debug, Clone)]
pub struct SimOption {
    pub arch: String,
    pub max_cpu_cycle: u64,
}

/// Why `run` stopped.
#[derive(Debug, Clone, Copy, PartialEq, Eq, Structural)]
pub enum StopReason {
    /// The termination signal was raised.
    Terminated,
    /// The program counter reached a breakpoint.
    Breakpoint(u64),
    /// The cycle count reached the bound.
    CycleLimit,
}

impl PipeSim {
    /// Step until the simulation terminates, the program counter reaches one
    /// of `breakpoints`, or the cycle count reaches `option.max_cpu_cycle`.
    pub fn run(&mut self, breakpoints: &Vec<u64>, option: &SimOption) -> (r: StopReason)
        requires
            old(self).wf(),
        ensures
            final(self).wf(),
            final(self).config() == old(self).config(),
            final(self).pc_signal == old(self).pc_signal,
            exists|n: nat| {
                &&& final(self).state() == spec_steps(old(self).config(), old(self).state(), n)
                &&& stops_at(old(self).config(), old(self).state(), n, breakpoints@, option.max_cpu_cycle, old(self).pc_signal)
                &&& forall|j: nat| j < n ==> !(#[trigger] stops_at(old(self).config(), old(self).state(), j, breakpoints@, option.max_cpu_cycle, old(self).pc_signal))
            },
            r == StopReason::Terminated <==> final(self).terminate,
            r == StopReason::CycleLimit ==> final(self).cycle_count >= option.max_cpu_cycle && !final(self).terminate,
            r matches StopReason::Breakpoint(pc) ==> breakpoints@.contains(pc) && pc == final(self).wires.inter@[final(self).pc_signal as int]
                && !final(self).terminate,
    {
        let ghost c0 = self.config();
        let ghost s0 = self.state();
        let ghost mut n: nat = 0;
        proof {
            assert(spec_steps(c0, s0, 0) == s0);
        }
        loop
            invariant
                self.wf(),
                c0 == old(self).config(),
                s0 == old(self).state(),
                self.config() == c0,
                self.pc_signal == old(self).pc_signal,
                self.state() == spec_steps(c0, s0, n),
                forall|j: nat| j < n ==> !(#[trigger] stops_at(c0, s0, j, breakpoints@, option.max_cpu_cycle, self.pc_signal)),
                n >= 1 ==> !self.terminate && !breakpoints@.contains(pc_of(self.state(), self.pc_signal)),
            decreases option.max_cpu_cycle - self.cycle_count,
        {
            if self.terminate {
                return StopReason::Terminated;
            }
            if self.cycle_count >= option.max_cpu_cycle {
                return StopReason::CycleLimit;
            }
            let ghost before = self.state();
            proof {
                assert(!stops_at(c0, s0, n, breakpoints@, option.max_cpu_cycle, self.pc_signal));
            }
            self.step();
            proof {
                n = n + 1;
                assert(spec_steps(c0, s0, n) == spec_step(c0, spec_steps(c0, s0, (n - 1) as nat)));
                assert(self.state() == spec_steps(c0, s0, n));
            }
            if self.terminate {
                return StopReason::Terminated;
            }
            let pc = self.program_counter();
            let mut i: usize = 0;
            while i < breakpoints.len()
                invariant
                    self.wf(),
                    c0 == old(self).config(),
                    s0 == old(self).state(),
                    self.config() == c0,
                    self.pc_signal == old(self).pc_signal,
                    self.state() == spec_steps(c0, s0, n),
                    !self.terminate,
                    n >= 1,
                    forall|j: nat| j < n ==> !(#[trigger] stops_at(c0, s0, j, breakpoints@, option.max_cpu_cycle, self.pc_signal)),
                    pc == self.wires.inter@[self.pc_signal as int],
                    i <= breakpoints@.len(),
                    forall|j: int| 0 <= j < i ==> breakpoints@[j] != pc,
                decreases breakpoints@.len() - i,
            {
                if breakpoints[i] == pc {
                    assert(breakpoints@[i as int] == pc);
                    assert(breakpoints@.contains(pc_of(self.state(), self.pc_signal)));
                    assert(stops_at(c0, s0, n, breakpoints@, option.max_cpu_cycle, self.pc_signal));
                    return StopReason::Breakpoint(pc);
                }
                i = i + 1;
            }
        }
    }
}

/// How two simulations run in lockstep first differed.
#[derive(Debug, Clone, Copy, PartialEq, Eq, Structural)]
pub enum Mismatch {
    /// The simulation under test terminated before the reference, after
    /// this many steps.
    TerminatedEarly(u64),
    /// The register files differ after this many steps.
    Registers(u64),
    /// The program counters differ after this many steps.
    ProgramCounter(u64),
    /// The memories differ when the reference terminates.
    Memory,
    /// The reference did not terminate within the bound.
    CycleLimit,
}

/// The program counter of a state.
pub open spec fn pc_of(s: SimState, pc_signal: usize) -> u64 {
    s.wires.inter[pc_signal as int]
}

/// Whether the two runs agree on registers and program counter after each
/// of the steps `1..=k`.
pub open spec fn agree_upto(ca: SimConfig, sa: SimState, pa: usize, cb: SimConfig, sb: SimState, pb: usize, k: nat) -> bool {
    forall|j: nat| 1 <= j <= k ==> {
        &&& (#[trigger] spec_steps(ca, sa, j)).wires.regs == spec_steps(cb, sb, j).wires.regs
        &&& pc_of(spec_steps(ca, sa, j), pa) == pc_of(spec_steps(cb, sb, j), pb)
    }
}

impl PipeSim {
    /// Step `self` and the reference `gt` together until `gt` terminates,
    /// comparing register files and program counters after every step and
    /// memories at the end. Returns the number of steps.
    pub fn compare_lockstep(&mut self, gt: &mut PipeSim, max_cycles: u64) -> (r: Result<u64, Mismatch>)
        requires
            old(self).wf(),
            old(gt).wf(),
        ensures
            final(self).wf(),
            final(gt).wf(),
            final(self).config() == old(self).config(),
            final(gt).config() == old(gt).config(),
            final(self).pc_signal == old(self).pc_signal,
            final(gt).pc_signal == old(gt).pc_signal,
            ({
                let (ca, sa, pa) = (old(self).config(), old(self).state(), old(self).pc_signal);
                let (cb, sb, pb) = (old(gt).config(), old(gt).state(), old(gt).pc_signal);
                match r {
                    Ok(n) => {
                        &&& spec_steps(cb, sb, n as nat).terminate
                        &&& agree_upto(ca, sa, pa, cb, sb, pb, n as nat)
                        &&& spec_steps(ca, sa, n as nat).wires.mem == spec_steps(cb, sb, n as nat).wires.mem
                    },
                    Err(Mismatch::Registers(k)) => agree_upto(ca, sa, pa, cb, sb, pb, (k - 1) as nat) && k >= 1
                        && spec_steps(ca, sa, k as nat).wires.regs != spec_steps(cb, sb, k as nat).wires.regs,
                    Err(Mismatch::ProgramCounter(k)) => agree_upto(ca, sa, pa, cb, sb, pb, (k - 1) as nat) && k >= 1
                        && pc_of(spec_steps(ca, sa, k as nat), pa) != pc_of(spec_steps(cb, sb, k as nat), pb),
                    Err(Mismatch::TerminatedEarly(k)) => agree_upto(ca, sa, pa, cb, sb, pb, k as nat)
                        && spec_steps(ca, sa, k as nat).terminate && !spec_steps(cb, sb, k as nat).terminate,
                    Err(Mismatch::Memory) => exists|n: nat| agree_upto(ca, sa, pa, cb, sb, pb, n)
                        && spec_steps(cb, sb, n).terminate
                        && spec_steps(ca, sa, n).wires.mem != spec_steps(cb, sb, n).wires.mem,
                    Err(Mismatch::CycleLimit) => agree_upto(ca, sa, pa, cb, sb, pb, max_cycles as nat)
                        && !spec_steps(cb, sb, max_cycles as nat).terminate,
                }
            }),
    {
        let ghost (ca, sa, pa) = (self.config(), self.state(), self.pc_signal);
        let ghost (cb, sb, pb) = (gt.config(), gt.state(), gt.pc_signal);
        let mut k: u64 = 0;
        while !gt.terminate
            invariant
                self.wf(),
                gt.wf(),
                ca == old(self).config(),
                sa == old(self).state(),
                pa == old(self).pc_signal,
                cb == old(gt).config(),
                sb == old(gt).state(),
                pb == old(gt).pc_signal,
                self.config() == ca,
                gt.config() == cb,
                self.pc_signal == pa,
                gt.pc_signal == pb,
                k <= max_cycles,
                self.state() == spec_steps(ca, sa, k as nat),
                gt.state() == spec_steps(cb, sb, k as nat),
                agree_upto(ca, sa, pa, cb, sb, pb, k as nat),
            decreases max_cycles - k,
        {
            if self.terminate {
                return Err(Mismatch::TerminatedEarly(k));
            }
            if k == max_cycles {
                return Err(Mismatch::CycleLimit);
            }
            gt.step();
            self.step();
            proof {
                assert(agree_upto(ca, sa, pa, cb, sb, pb, k as nat));
            }
            k = k + 1;
            proof {
                assert(spec_steps(ca, sa, k as nat) == spec_step(ca, spec_steps(ca, sa, (k - 1) as nat)));
                assert(spec_steps(cb, sb, k as nat) == spec_step(cb, spec_steps(cb, sb, (k - 1) as nat)));
            }
            let ra = self.registers();
            let rb = gt.registers();
            let mut i: usize = 0;
            while i < 16
                invariant
                    self.wf(),
                    gt.wf(),
                    ca == old(self).config(),
                    sa == old(self).state(),
                    pa == old(self).pc_signal,
                    cb == old(gt).config(),
                    sb == old(gt).state(),
                    pb == old(gt).pc_signal,
                    self.config() == ca,
                    gt.config() == cb,
                    self.pc_signal == pa,
                    gt.pc_signal == pb,
                    k >= 1,
                    self.state() == spec_steps(ca, sa, k as nat),
                    gt.state() == spec_steps(cb, sb, k as nat),
                    agree_upto(ca, sa, pa, cb, sb, pb, (k - 1) as nat),
                    ra@ == self.wires.regs@,
                    rb@ == gt.wires.regs@,
                    i <= 16,
                    ra@.len() == 16 && rb@.len() == 16,
                    forall|j: int| 0 <= j < i ==> ra@[j] == rb@[j],
                decreases 16 - i,
            {
                if ra[i] != rb[i] {
                    assert(ra@ != rb@);
                    return Err(Mismatch::Registers(k));
                }
                i = i + 1;
            }
            assert(ra@ =~= rb@);
            if self.program_counter() != gt.program_counter() {
                return Err(Mismatch::ProgramCounter(k));
            }
            proof {
                assert forall|j: nat| 1 <= j <= k implies {
                    &&& (#[trigger] spec_steps(ca, sa, j)).wires.regs == spec_steps(cb, sb, j).wires.regs
                    &&& pc_of(spec_steps(ca, sa, j), pa) == pc_of(spec_steps(cb, sb, j), pb)
                } by {
                    if j < k {
                        assert(agree_upto(ca, sa, pa, cb, sb, pb, (k - 1) as nat));
                    }
                }
            }
        }
        let mut same = self.wires.mem.len() == gt.wires.mem.len();
        let mut i: usize = 0;
        while same && i < self.wires.mem.len()
            invariant
                same ==> self.wires.mem@.len() == gt.wires.mem@.len(),
                same ==> forall|j: int| 0 <= j < i ==> self.wires.mem@[j] == gt.wires.mem@[j],
                !same ==> self.wires.mem@ != gt.wires.mem@,
                i <= self.wires.mem@.len(),
            decreases self.wires.mem@.len() - i + (if same { 1int } else { 0int }),
        {
            if self.wires.mem[i] != gt.wires.mem[i] {
                same = false;
            } else {
                i = i + 1;
            }
        }
        if !same {
            return Err(Mismatch::Memory);
        }
        assert(self.wires.mem@ =~= gt.wires.mem@);
        Ok(k)
    }
}

impl PropCircuit {
    fn unit_fits(&self, w: &Wires, u: &UnitDef) -> (r: bool)
        ensures
            r == self.unit_ok(w.view(), *u),
    {
        let n_in = u.inputs.len();
        let n_out = u.outputs.len();
        let arity = match u.device {
            Device::Alu => n_in == 3 && n_out == 1,
            Device::CondTest => n_in == 4 && n_out == 1,
            Device::Pass => n_in == n_out,
            Device::RegRead => n_in == 2 && n_out == 2,
            Device::RegWrite => n_in == 4 && n_out == 0,
            Device::MemRead => n_in == 2 && n_out == 2,
            Device::MemWrite => n_in == 3 && n_out == 1,
        };
        if !arity {
            return false;
        }
        let mut i: usize = 0;
        while i < n_in
            invariant
                n_in == u.inputs@.len(),
                i <= n_in,
                forall|j: int| 0 <= j < i ==> #[trigger] u.inputs@[j] < w.unit_in@.len(),
            decreases n_in - i,
        {
            if u.inputs[i] >= w.unit_in.len() {
                return false;
            }
            i = i + 1;
        }
        let mut i: usize = 0;
        while i < n_out
            invariant
                n_out == u.outputs@.len(),
                i <= n_out,
                forall|j: int| 0 <= j < i ==> #[trigger] u.outputs@[j] < w.unit_out@.len(),
            decreases n_out - i,
        {
            if u.outputs[i] >= w.unit_out.len() {
                return false;
            }
            i = i + 1;
        }
        true
    }

    /// Whether the circuit only touches places of `w` (its order being
    /// valid, as `compile` establishes).
    pub fn fits(&self, w: &Wires) -> (r: bool)
        requires
            self.order.wf(),
        ensures
            r == self.wf(w.view()),
    {
        if self.actions.len() != self.order.nodes.len() {
            return false;
        }
        let mut v: usize = 0;
        while v < self.actions.len()
            invariant
                v <= self.actions@.len(),
                forall|x: int| 0 <= x < v ==> match #[trigger] self.actions@[x] {
                    NodeAction::Unit(u) => u < self.units@.len(),
                    NodeAction::Signal(d) => d < self.signals@.len(),
                    NodeAction::Port => true,
                },
            decreases self.actions@.len() - v,
        {
            let ok = match self.actions[v] {
                NodeAction::Unit(u) => u < self.units.len(),
                NodeAction::Signal(d) => d < self.signals.len(),
                NodeAction::Port => true,
            };
            if !ok {
                return false;
            }
            v = v + 1;
        }
        let mut u: usize = 0;
        while u < self.units.len()
            invariant
                u <= self.units@.len(),
                forall|x: int| 0 <= x < u ==> self.unit_ok(w.view(), #[trigger] self.units@[x]),
            decreases self.units@.len() - u,
        {
            if !self.unit_fits(w, &self.units[u]) {
                return false;
            }
            u = u + 1;
        }
        let mut d: usize = 0;
        while d < self.signals.len()
            invariant
                d <= self.signals@.len(),
                forall|x: int| 0 <= x < d ==> w.view().def_ok(#[trigger] self.signals@[x]),
            decreases self.signals@.len() - d,
        {
            if !w.def_fits(&self.signals[d]) {
                return false;
            }
            d = d + 1;
        }
        true
    }
}

impl PipeSim {
    /// A simulation of `circuit` on `wires`, counters at zero, if the circuit
    /// only touches places of the wires and the stage tables, signals and
    /// register file fit them.
    pub fn new(circuit: PropCircuit, wires: Wires, stage_of: Vec<usize>, defaults: Vec<u64>, pc_signal: usize, term_signal: usize) -> (r: Option<PipeSim>)
        requires
            circuit.order.wf(),
        ensures
            r is Some <==> (PipeSim { circuit, wires, stage_of, defaults, pc_signal, term_signal, cycle_count: 0, terminate: false }).wf(),
            r matches Some(sim) ==> sim == (PipeSim { circuit, wires, stage_of, defaults, pc_signal, term_signal, cycle_count: 0, terminate: false }),
    {
        let ok_shape = circuit.fits(&wires) && stage_of.len() == wires.cur.len() && wires.next.len() == wires.cur.len()
            && defaults.len() == wires.cur.len() && wires.next_stall.len() == wires.next_bubble.len()
            && pc_signal < wires.inter.len() && term_signal < wires.inter.len() && wires.regs.len() == 16;
        if !ok_shape {
            return None;
        }
        let mut i: usize = 0;
        while i < stage_of.len()
            invariant
                i <= stage_of@.len(),
                forall|j: int| 0 <= j < i ==> #[trigger] stage_of@[j] < wires.next_bubble@.len(),
            decreases stage_of@.len() - i,
        {
            if stage_of[i] >= wires.next_bubble.len() {
                return None;
            }
            i = i + 1;
        }
        Some(PipeSim { circuit, wires, stage_of, defaults, pc_signal, term_signal, cycle_count: 0, terminate: false })
    }
}

/// Bubble wins through a whole step: when a cycle does not terminate and a
/// stage's next state asks for a bubble (with or without a stall), every
/// field of that stage holds its default afterwards.
pub proof fn lemma_step_bubble_resets(c: SimConfig, s: SimState, i: int)
    requires
        0 <= i < spec_propagated(c, s).wires.cur.len(),
        !spec_propagated(c, s).terminate,
        spec_propagated(c, s).wires.next_bubble[c.stage_of[i] as int],
    ensures
        spec_step(c, s).wires.cur[i] == c.defaults[i],
{
}

} // verus!
