//! Binary representation of Y86 programs: the memory image an assembled
//! program occupies, its symbol table, and the source line of each address.
use vstd::prelude::*;

use crate::framework::MEM_SIZE;
use crate::inst::{fields_fit, spec_icode, Addr, Imm, Inst};
use crate::isa::inst_len;
use crate::utils::{le_bytes, lemma_byte_at_shift, shift_bytes};
use vstd::string::StringExecFns;

verus! {

/// Maximum size of the assembled binary.
pub const BIN_SIZE: usize = MEM_SIZE;

/// Why a source line could not be placed in the object.
#[derive(Debug, Clone)]
pub enum ObjError {
    /// An immediate names a label that the symbol table lacks.
    UndefinedLabel(String),
    /// The line's bytes would not fit in the binary at this address.
    OutOfRange(u64),
}

/// Labels and their absolute addresses. A later definition of a label hides
/// an earlier one.
#[derive(Debug, Clone)]
pub struct SymbolMap {
    entries: Vec<(String, u64)>,
}

/// The address of the first entry named `name`.
pub open spec fn lookup(entries: Seq<(Seq<char>, u64)>, name: Seq<char>) -> Option<u64>
    decreases entries.len(),
{
    if entries.len() == 0 {
        None
    } else if entries[0].0 == name {
        Some(entries[0].1)
    } else {
        lookup(entries.drop_first(), name)
    }
}

proof fn lemma_lookup_found(entries: Seq<(Seq<char>, u64)>, name: Seq<char>, i: int)
    requires
        0 <= i < entries.len(),
        entries[i].0 == name,
        forall|j: int| 0 <= j < i ==> entries[j].0 != name,
    ensures
        lookup(entries, name) == Some(entries[i].1),
    decreases i,
{
    if i > 0 {
        lemma_lookup_found(entries.drop_first(), name, i - 1);
    }
}

proof fn lemma_lookup_absent(entries: Seq<(Seq<char>, u64)>, name: Seq<char>)
    requires
        forall|j: int| 0 <= j < entries.len() ==> entries[j].0 != name,
    ensures
        lookup(entries, name) == None::<u64>,
    decreases entries.len(),
{
    if entries.len() > 0 {
        lemma_lookup_absent(entries.drop_first(), name);
    }
}

impl SymbolMap {
    /// The entries, newest first, with names as character sequences.
    pub closed spec fn view(&self) -> Seq<(Seq<char>, u64)> {
        Seq::new(self.entries@.len(), |i: int| (self.entries@[i].0@, self.entries@[i].1))
    }

    /// What `get` finds for `name`.
    pub open spec fn spec_get(&self, name: Seq<char>) -> Option<u64> {
        lookup(self.view(), name)
    }

    pub fn new() -> (r: Self)
        ensures
            r.view().len() == 0,
            forall|n: Seq<char>| r.spec_get(n) == None::<u64>,
    {
        let r = SymbolMap { entries: Vec::new() };
        assert forall|n: Seq<char>| r.spec_get(n) == None::<u64> by {
            lemma_lookup_absent(r.view(), n);
        }
        r
    }

    /// Define `name` at `addr`.
    pub fn insert(&mut self, name: String, addr: u64)
        ensures
            final(self).view() == seq![(name@, addr)] + old(self).view(),
            final(self).spec_get(name@) == Some(addr),
            forall|n: Seq<char>| n != name@ ==> final(self).spec_get(n) == old(self).spec_get(n),
    {
        let ghost key = name@;
        self.entries.insert(0, (name, addr));
        assert(self.view() =~= seq![(key, addr)] + old(self).view());
        assert(self.view().drop_first() =~= old(self).view());
    }

    /// The address of label `name`, if it is defined.
    pub fn get(&self, name: &String) -> (r: Option<u64>)
        ensures
            r == self.spec_get(name@),
    {
        let mut i: usize = 0;
        while i < self.entries.len()
            invariant
                i <= self.entries@.len(),
                forall|j: int| 0 <= j < i ==> self.view()[j].0 != name@,
            decreases self.entries@.len() - i,
        {
            if self.entries[i].0 == *name {
                proof {
                    lemma_lookup_found(self.view(), name@, i as int);
                }
                return Some(self.entries[i].1);
            }
            i = i + 1;
        }
        proof {
            lemma_lookup_absent(self.view(), name@);
        }
        None
    }
}

/// The value of an immediate, or the label that is missing.
pub open spec fn imm_value(imm: Imm, sym: Seq<(Seq<char>, u64)>) -> Result<u64, Seq<char>> {
    match imm {
        Imm::Num(n) => Ok(n),
        Imm::Label(l) => match lookup(sym, l@) {
            Some(a) => Ok(a),
            None => Err(l@),
        },
    }
}

/// The instruction with its immediate resolved, or the label that is missing.
pub open spec fn spec_desymbol(inst: Inst<Imm>, sym: Seq<(Seq<char>, u64)>) -> Result<Inst<u64>, Seq<char>> {
    match inst {
        Inst::HALT => Ok(Inst::HALT),
        Inst::NOP => Ok(Inst::NOP),
        Inst::CMOVX(c, a, b) => Ok(Inst::CMOVX(c, a, b)),
        Inst::IRMOVQ(b, v) => match imm_value(v, sym) {
            Ok(n) => Ok(Inst::IRMOVQ(b, n)),
            Err(l) => Err(l),
        },
        Inst::RMMOVQ(a, m) => Ok(Inst::RMMOVQ(a, m)),
        Inst::MRMOVQ(m, a) => Ok(Inst::MRMOVQ(m, a)),
        Inst::OPQ(f, a, b) => Ok(Inst::OPQ(f, a, b)),
        Inst::JX(c, v) => match imm_value(v, sym) {
            Ok(n) => Ok(Inst::JX(c, n)),
            Err(l) => Err(l),
        },
        Inst::CALL(v) => match imm_value(v, sym) {
            Ok(n) => Ok(Inst::CALL(n)),
            Err(l) => Err(l),
        },
        Inst::RET => Ok(Inst::RET),
        Inst::PUSHQ(a) => Ok(Inst::PUSHQ(a)),
        Inst::POPQ(a) => Ok(Inst::POPQ(a)),
        Inst::IOPQ(f, v, b) => match imm_value(v, sym) {
            Ok(n) => Ok(Inst::IOPQ(f, n, b)),
            Err(l) => Err(l),
        },
    }
}

/// Whether `r` reports the missing label `l` or the value `v`.
pub open spec fn reports<T>(r: Result<T, ObjError>, s: Result<T, Seq<char>>) -> bool {
    match s {
        Ok(v) => r == Ok::<T, ObjError>(v),
        Err(l) => match r {
            Err(ObjError::UndefinedLabel(name)) => name@ == l,
            _ => false,
        },
    }
}

impl Imm {
    /// Get the address of the immediate value.
    fn desymbol(&self, sym: &SymbolMap) -> (r: Result<u64, ObjError>)
        ensures
            reports(r, imm_value(*self, sym.view())),
    {
        match self {
            Imm::Num(n) => Ok(*n),
            Imm::Label(label) => match sym.get(label) {
                Some(a) => Ok(a),
                None => Err(ObjError::UndefinedLabel(label.clone())),
            },
        }
    }
}

impl Inst<Imm> {
    /// Resolve the label of the instruction's immediate, if it has one.
    pub fn desymbol(&self, sym: &SymbolMap) -> (r: Result<Inst<u64>, ObjError>)
        ensures
            reports(r, spec_desymbol(*self, sym.view())),
    {
        match self {
            Inst::HALT => Ok(Inst::HALT),
            Inst::NOP => Ok(Inst::NOP),
            Inst::CMOVX(c, a, b) => Ok(Inst::CMOVX(*c, *a, *b)),
            Inst::IRMOVQ(b, v) => match v.desymbol(sym) {
                Ok(n) => Ok(Inst::IRMOVQ(*b, n)),
                Err(e) => Err(e),
            },
            Inst::RMMOVQ(a, m) => Ok(Inst::RMMOVQ(*a, *m)),
            Inst::MRMOVQ(m, a) => Ok(Inst::MRMOVQ(*m, *a)),
            Inst::OPQ(f, a, b) => Ok(Inst::OPQ(*f, *a, *b)),
            Inst::JX(c, v) => match v.desymbol(sym) {
                Ok(n) => Ok(Inst::JX(*c, n)),
                Err(e) => Err(e),
            },
            Inst::CALL(v) => match v.desymbol(sym) {
                Ok(n) => Ok(Inst::CALL(n)),
                Err(e) => Err(e),
            },
            Inst::RET => Ok(Inst::RET),
            Inst::PUSHQ(a) => Ok(Inst::PUSHQ(*a)),
            Inst::POPQ(a) => Ok(Inst::POPQ(*a)),
            Inst::IOPQ(f, v, b) => match v.desymbol(sym) {
                Ok(n) => Ok(Inst::IOPQ(*f, n, *b)),
                Err(e) => Err(e),
            },
        }
    }
}

/// Two nibbles in one byte: `a` high, `b` low.
pub open spec fn h2(a: u8, b: u8) -> u8 {
    (a * 16 + b) as u8
}

/// The 8 little-endian bytes of `v`.
pub open spec fn le8(v: u64) -> Seq<u8> {
    le_bytes(v as nat, 8)
}

/// The bytes of an instruction, per the Y86-64 encoding table.
pub open spec fn spec_encode(inst: Inst<u64>) -> Seq<u8> {
    let f = 0xfu8;
    match inst {
        Inst::HALT => seq![0x00u8],
        Inst::NOP => seq![0x10u8],
        Inst::CMOVX(c, a, b) => seq![h2(2, c), h2(a, b)],
        Inst::IRMOVQ(b, v) => seq![0x30u8, h2(f, b)] + le8(v),
        Inst::RMMOVQ(a, Addr(d, b)) => seq![0x40u8, h2(a, b)] + le8(d.unwrap_or(0)),
        Inst::MRMOVQ(Addr(d, b), a) => seq![0x50u8, h2(a, b)] + le8(d.unwrap_or(0)),
        Inst::OPQ(op, a, b) => seq![h2(6, op), h2(a, b)],
        Inst::JX(c, v) => seq![h2(7, c)] + le8(v),
        Inst::CALL(v) => seq![0x80u8] + le8(v),
        Inst::RET => seq![0x90u8],
        Inst::PUSHQ(a) => seq![0xa0u8, h2(a, f)],
        Inst::POPQ(a) => seq![0xb0u8, h2(a, f)],
        Inst::IOPQ(op, v, b) => seq![h2(0xc, op), h2(f, b)] + le8(v),
    }
}

/// The encoding of an instruction is as long as its code says, and its first
/// byte carries that code in the high nibble.
pub proof fn lemma_encode_len(inst: Inst<u64>)
    requires
        fields_fit(inst),
    ensures
        spec_encode(inst).len() == inst_len(spec_icode(inst)),
        spec_encode(inst)[0] / 16 == spec_icode(inst),
{
}

/// `mem` with `bytes` written from `addr` on.
pub open spec fn overwrite(mem: Seq<u8>, addr: int, bytes: Seq<u8>) -> Seq<u8> {
    Seq::new(
        mem.len(),
        |i: int|
            if addr <= i < addr + bytes.len() {
                bytes[i - addr]
            } else {
                mem[i]
            },
    )
}

fn push_le(out: &mut Vec<u8>, v: u64, n: usize)
    requires
        n <= 8,
    ensures
        final(out)@ == old(out)@ + le_bytes(v as nat, n as nat),
{
    let mut x: u64 = v;
    let mut i: usize = 0;
    while i < n
        invariant
            i <= n,
            x as nat == shift_bytes(v as nat, i as nat),
            out@ == old(out)@ + le_bytes(v as nat, i as nat),
        decreases n - i,
    {
        proof {
            lemma_byte_at_shift(v as nat, i as nat);
        }
        out.push((x % 256) as u8);
        x = x / 256;
        i = i + 1;
        assert(out@ =~= old(out)@ + le_bytes(v as nat, i as nat));
    }
}

/// The bytes of an instruction.
pub fn encode(inst: &Inst<u64>) -> (r: Vec<u8>)
    requires
        fields_fit(*inst),
    ensures
        r@ == spec_encode(*inst),
{
    let f: u8 = 0xf;
    let mut out: Vec<u8> = Vec::new();
    match inst {
        Inst::HALT => out.push(0x00),
        Inst::NOP => out.push(0x10),
        Inst::CMOVX(c, a, b) => {
            out.push(2 * 16 + *c);
            out.push(*a * 16 + *b);
        },
        Inst::IRMOVQ(b, v) => {
            out.push(0x30);
            out.push(f * 16 + *b);
            push_le(&mut out, *v, 8);
        },
        Inst::RMMOVQ(a, Addr(d, b)) => {
            out.push(0x40);
            out.push(*a * 16 + *b);
            push_le(&mut out, d.unwrap_or(0), 8);
        },
        Inst::MRMOVQ(Addr(d, b), a) => {
            out.push(0x50);
            out.push(*a * 16 + *b);
            push_le(&mut out, d.unwrap_or(0), 8);
        },
        Inst::OPQ(op, a, b) => {
            out.push(6 * 16 + *op);
            out.push(*a * 16 + *b);
        },
        Inst::JX(c, v) => {
            out.push(7 * 16 + *c);
            push_le(&mut out, *v, 8);
        },
        Inst::CALL(v) => {
            out.push(0x80);
            push_le(&mut out, *v, 8);
        },
        Inst::RET => out.push(0x90),
        Inst::PUSHQ(a) => {
            out.push(0xa0);
            out.push(*a * 16 + f);
        },
        Inst::POPQ(a) => {
            out.push(0xb0);
            out.push(*a * 16 + f);
        },
        Inst::IOPQ(op, v, b) => {
            out.push(0xc * 16 + *op);
            out.push(f * 16 + *b);
            push_le(&mut out, *v, 8);
        },
    }
    assert(out@ =~= spec_encode(*inst));
    out
}

/// object file
///
/// while y86 language support 64-bit address, we only consider address <
/// 0x10000.
pub struct Object {
    /// The memory image; `BIN_SIZE` bytes long.
    pub binary: Vec<u8>,
    /// basically labels
    pub symbols: SymbolMap,
}

impl Object {
    /// The memory image.
    pub open spec fn bytes(&self) -> Seq<u8> {
        self.binary@
    }

    pub open spec fn wf(&self) -> bool {
        self.bytes().len() == BIN_SIZE
    }

    /// An empty object: all bytes zero, no symbols.
    pub fn new() -> (r: Self)
        ensures
            r.wf(),
            r.bytes() == Seq::new(BIN_SIZE as nat, |i: int| 0u8),
            r.symbols.view().len() == 0,
    {
        let r = Object { binary: vec![0u8; BIN_SIZE], symbols: SymbolMap::new() };
        assert(r.bytes() =~= Seq::new(BIN_SIZE as nat, |i: int| 0u8));
        r
    }

    /// Write `bytes` from `addr` on.
    fn write_bytes(&mut self, addr: usize, bytes: &Vec<u8>)
        requires
            old(self).wf(),
            addr + bytes@.len() <= BIN_SIZE,
        ensures
            final(self).wf(),
            final(self).symbols == old(self).symbols,
            final(self).bytes() == overwrite(old(self).bytes(), addr as int, bytes@),
    {
        let mut i: usize = 0;
        while i < bytes.len()
            invariant
                i <= bytes@.len(),
                addr + bytes@.len() <= BIN_SIZE,
                self.binary@.len() == BIN_SIZE,
                self.symbols == old(self).symbols,
                self.binary@ == overwrite(old(self).bytes(), addr as int, bytes@.subrange(0, i as int)),
            decreases bytes@.len() - i,
        {
            self.binary.set(addr + i, bytes[i]);
            i = i + 1;
            assert(self.binary@ =~= overwrite(old(self).bytes(), addr as int, bytes@.subrange(0, i as int)));
        }
        assert(bytes@.subrange(0, i as int) =~= bytes@);
    }

    /// Write the `sz` low bytes of `data` from `addr` on, little endian.
    fn write_num_data(&mut self, addr: usize, sz: u8, data: u64)
        requires
            old(self).wf(),
            sz <= 8,
            addr + sz <= BIN_SIZE,
        ensures
            final(self).wf(),
            final(self).symbols == old(self).symbols,
            final(self).bytes() == overwrite(old(self).bytes(), addr as int, le_bytes(data as nat, sz as nat)),
    {
        let mut bytes: Vec<u8> = Vec::new();
        push_le(&mut bytes, data, sz as usize);
        assert(bytes@ =~= le_bytes(data as nat, sz as nat));
        self.write_bytes(addr, &bytes);
    }

    /// Initialize memory from assembled binary.
    pub fn init_mem(&self) -> (r: Vec<u8>)
        requires
            self.wf(),
        ensures
            r@ == self.bytes(),
            r@.len() == MEM_SIZE,
    {
        let mut mem: Vec<u8> = Vec::new();
        let mut i: usize = 0;
        while i < self.binary.len()
            invariant
                i <= self.binary@.len(),
                mem@ == self.binary@.subrange(0, i as int),
            decreases self.binary@.len() - i,
        {
            mem.push(self.binary[i]);
            i = i + 1;
            assert(mem@ =~= self.binary@.subrange(0, i as int));
        }
        assert(mem@ =~= self.binary@);
        mem
    }
}

/// A source info is one line of the .yo file.
#[derive(Debug, Clone)]
pub struct LineInfo {
    pub addr: Option<u64>,
    pub inst: Option<Inst<Imm>>,
    pub label: Option<String>,
    /// width and data
    pub data: Option<(u8, Imm)>,
    pub src: String,
}

/// Why placing a line failed, in spec terms.
pub enum LineFault {
    Undefined(Seq<char>),
    Range(u64),
}

/// Whether `r` is the exec form of the outcome `f`.
pub open spec fn line_reports(r: Result<(), ObjError>, f: Option<LineFault>) -> bool {
    match f {
        None => r is Ok,
        Some(LineFault::Undefined(l)) => match r {
            Err(ObjError::UndefinedLabel(name)) => name@ == l,
            _ => false,
        },
        Some(LineFault::Range(a)) => match r {
            Err(ObjError::OutOfRange(x)) => x == a,
            _ => false,
        },
    }
}

impl LineInfo {
    pub open spec fn wf(&self) -> bool {
        &&& (self.inst matches Some(i) ==> fields_fit(i))
        &&& (self.data matches Some((sz, _)) ==> sz <= 8)
    }

    /// The memory image after the instruction of this line is placed, and
    /// what went wrong, if anything.
    pub open spec fn spec_place_inst(&self, mem: Seq<u8>, sym: Seq<(Seq<char>, u64)>) -> (Seq<u8>, Option<LineFault>) {
        match (self.addr, self.inst) {
            (Some(addr), Some(inst)) => match spec_desymbol(inst, sym) {
                Err(l) => (mem, Some(LineFault::Undefined(l))),
                Ok(i) => if addr + inst_len(spec_icode(i)) > BIN_SIZE {
                    (mem, Some(LineFault::Range(addr)))
                } else {
                    (overwrite(mem, addr as int, spec_encode(i)), None)
                },
            },
            _ => (mem, None),
        }
    }

    /// The memory image after this line is placed (instruction, then data),
    /// and what went wrong, if anything.
    pub open spec fn spec_place(&self, mem: Seq<u8>, sym: Seq<(Seq<char>, u64)>) -> (Seq<u8>, Option<LineFault>) {
        let (m1, f1) = self.spec_place_inst(mem, sym);
        if f1 is Some {
            (m1, f1)
        } else {
            match (self.addr, self.data) {
                (Some(addr), Some((sz, imm))) => match imm_value(imm, sym) {
                    Err(l) => (m1, Some(LineFault::Undefined(l))),
                    Ok(v) => if addr + sz > BIN_SIZE {
                        (m1, Some(LineFault::Range(addr)))
                    } else {
                        (overwrite(m1, addr as int, le_bytes(v as nat, sz as nat)), None)
                    },
                },
                _ => (m1, None),
            }
        }
    }

    /// Place the bytes of this line (its instruction, then its data) at its
    /// address in `obj`, resolving labels through `obj.symbols`.
    pub fn write_object(&self, obj: &mut Object) -> (r: Result<(), ObjError>)
        requires
            old(obj).wf(),
            self.wf(),
        ensures
            final(obj).wf(),
            final(obj).symbols == old(obj).symbols,
            final(obj).bytes() == self.spec_place(old(obj).bytes(), old(obj).symbols.view()).0,
            line_reports(r, self.spec_place(old(obj).bytes(), old(obj).symbols.view()).1),
    {
        if let Some(addr) = self.addr {
            if let Some(inst) = &self.inst {
                let i = match inst.desymbol(&obj.symbols) {
                    Ok(i) => i,
                    Err(e) => {
                        return Err(e);
                    },
                };
                let len = i.len();
                if addr > (BIN_SIZE - len) as u64 {
                    return Err(ObjError::OutOfRange(addr));
                }
                proof {
                    lemma_encode_len(i);
                }
                let bytes = encode(&i);
                obj.write_bytes(addr as usize, &bytes);
            }
            if let Some((sz, imm)) = &self.data {
                let v = match imm.desymbol(&obj.symbols) {
                    Ok(v) => v,
                    Err(e) => {
                        return Err(e);
                    },
                };
                if addr > (BIN_SIZE - *sz as usize) as u64 {
                    return Err(ObjError::OutOfRange(addr));
                }
                obj.write_num_data(addr as usize, *sz, v);
            }
        }
        Ok(())
    }
}

/// One entry per source line, in order.
#[derive(Debug)]
pub struct SourceInfo(pub Vec<LineInfo>);

impl From<Vec<LineInfo>> for SourceInfo {
    fn from(v: Vec<LineInfo>) -> (r: Self)
        ensures
            r.0@ == v@,
    {
        SourceInfo(v)
    }
}

impl vstd::std_specs::convert::FromSpecImpl<Vec<LineInfo>> for SourceInfo {
    open spec fn obeys_from_spec() -> bool {
        true
    }

    open spec fn from_spec(v: Vec<LineInfo>) -> Self {
        SourceInfo(v)
    }
}

/// Index of the first line placed at `addr`, if any.
pub open spec fn first_line_at(lines: Seq<LineInfo>, addr: u64) -> Option<int> {
    if exists|i: int| 0 <= i < lines.len() && lines[i].addr == Some(addr) {
        Some(
            choose|i: int|
                0 <= i < lines.len() && lines[i].addr == Some(addr) && forall|j: int|
                    0 <= j < i ==> lines[j].addr != Some(addr),
        )
    } else {
        None
    }
}

impl SourceInfo {
    /// Get the line info by line number (start from 1)
    pub fn get_line(&self, line: i64) -> (r: Option<&LineInfo>)
        requires
            line > 0,
        ensures
            r == (if line - 1 < self.0@.len() {
                Some(&self.0@[line - 1])
            } else {
                None
            }),
    {
        if ((line - 1) as u64) < self.0.len() as u64 {
            Some(&self.0[(line - 1) as usize])
        } else {
            None
        }
    }

    /// The number (from 1) of the first line placed at `addr`.
    pub fn get_line_number_by_addr(&self, addr: u64) -> (r: Option<i64>)
        requires
            self.0@.len() < i64::MAX,
        ensures
            r == (match first_line_at(self.0@, addr) {
                Some(i) => Some((i + 1) as i64),
                None => None::<i64>,
            }),
    {
        let mut i: usize = 0;
        while i < self.0.len()
            invariant
                i <= self.0@.len(),
                self.0@.len() < i64::MAX,
                forall|j: int| 0 <= j < i ==> self.0@[j].addr != Some(addr),
            decreases self.0@.len() - i,
        {
            if self.0[i].addr == Some(addr) {
                let ghost lines = self.0@;
                assert(first_line_at(lines, addr) == Some(i as int)) by {
                    let k = choose|k: int|
                        0 <= k < lines.len() && lines[k].addr == Some(addr) && forall|j: int|
                            0 <= j < k ==> lines[j].addr != Some(addr);
                    assert(0 <= i < lines.len() && lines[i as int].addr == Some(addr));
                }
                return Some(i as i64 + 1);
            }
            i = i + 1;
        }
        None
    }
}

/// object file with source info.
pub struct ObjectExt {
    pub obj: Object,
    /// annotate each line with its address
    pub source: SourceInfo,
}

/// The lowercase hexadecimal digit of `d < 16`.
pub open spec fn hex_char(d: nat) -> char {
    if d < 10 {
        (d + 48) as char
    } else {
        (d + 87) as char
    }
}

/// Two hexadecimal digits of a byte.
pub open spec fn hex2(b: u8) -> Seq<char> {
    seq![hex_char((b / 16) as nat), hex_char((b % 16) as nat)]
}

/// Hexadecimal digits of a byte sequence, two per byte.
pub open spec fn hex_bytes(s: Seq<u8>) -> Seq<char>
    decreases s.len(),
{
    if s.len() == 0 {
        Seq::empty()
    } else {
        hex_bytes(s.drop_last()) + hex2(s.last())
    }
}

/// `n` spaces.
pub open spec fn spaces(n: nat) -> Seq<char> {
    Seq::new(n, |i: int| ' ')
}

/// `0x` and four hexadecimal digits of `a < 0x10000`.
pub open spec fn addr_text(a: u64) -> Seq<char> {
    seq!['0', 'x'] + hex2((a / 256) as u8) + hex2((a % 256) as u8)
}

/// How many bytes a line shows: its instruction's, else its data's, else 0.
pub open spec fn shown_len(line: LineInfo) -> nat {
    match line.inst {
        Some(i) => inst_len(spec_icode(i)),
        None => match line.data {
            Some((sz, _)) => sz as nat,
            None => 0,
        },
    }
}

/// One line of the `.yo` listing: address, the bytes at it padded to 21
/// columns, then `| ` and the source text. A line without an address has
/// 29 blanks before the bar.
pub open spec fn yo_line(line: LineInfo, mem: Seq<u8>) -> Seq<char> {
    let head = match line.addr {
        Some(a) => addr_text(a) + seq![':', ' '] + hex_bytes(mem.subrange(a as int, a + shown_len(line)))
            + spaces((21 - 2 * shown_len(line)) as nat),
        None => spaces(29),
    };
    head + seq!['|', ' '] + line.src@ + seq!['\n']
}

/// The `.yo` listing of the first `k` lines.
pub open spec fn yo_text(lines: Seq<LineInfo>, mem: Seq<u8>, k: int) -> Seq<char>
    decreases k,
{
    if k <= 0 {
        Seq::empty()
    } else {
        yo_text(lines, mem, k - 1) + yo_line(lines[k - 1], mem)
    }
}

/// Relies on `String::push`: the character is appended.
#[verifier::external_body]
pub(crate) fn push_char(s: &mut String, c: char)
    ensures
        final(s)@ == old(s)@.push(c),
{
    s.push(c);
}

fn push_hex_digit(s: &mut String, d: u8)
    requires
        d < 16,
    ensures
        final(s)@ == old(s)@.push(hex_char(d as nat)),
{
    let c = if d < 10 {
        (d + 48) as char
    } else {
        (d + 87) as char
    };
    push_char(s, c);
}

fn push_hex2(s: &mut String, b: u8)
    ensures
        final(s)@ == old(s)@ + hex2(b),
{
    push_hex_digit(s, b / 16);
    push_hex_digit(s, b % 16);
    assert(s@ =~= old(s)@ + hex2(b));
}

fn push_spaces(s: &mut String, n: usize)
    ensures
        final(s)@ == old(s)@ + spaces(n as nat),
{
    let mut i: usize = 0;
    while i < n
        invariant
            i <= n,
            s@ == old(s)@ + spaces(i as nat),
        decreases n - i,
    {
        push_char(s, ' ');
        i = i + 1;
        assert(s@ =~= old(s)@ + spaces(i as nat));
    }
}

impl LineInfo {
    /// Whether the line can be listed: its address has four hexadecimal
    /// digits and the bytes it shows lie in the binary.
    pub open spec fn listable(&self) -> bool {
        self.addr matches Some(a) ==> a < 0x10000 && a + shown_len(*self) <= BIN_SIZE && shown_len(*self) <= 10
    }
}

/// Append the `.yo` line of `line`.
fn push_yo_line(out: &mut String, line: &LineInfo, obj: &Object)
    requires
        obj.wf(),
        line.listable(),
    ensures
        final(out)@ == old(out)@ + yo_line(*line, obj.bytes()),
{
    match line.addr {
        Some(a) => {
            push_char(out, '0');
            push_char(out, 'x');
            push_hex2(out, (a / 256) as u8);
            push_hex2(out, (a % 256) as u8);
            push_char(out, ':');
            push_char(out, ' ');
            let n: usize = match &line.inst {
                Some(i) => i.len(),
                None => match &line.data {
                    Some((sz, _)) => *sz as usize,
                    None => 0,
                },
            };
            let ghost mid = out@;
            let start = a as usize;
            let mut j: usize = 0;
            while j < n
                invariant
                    obj.wf(),
                    start + n <= BIN_SIZE,
                    j <= n,
                    out@ == mid + hex_bytes(obj.bytes().subrange(start as int, start + j)),
                decreases n - j,
            {
                push_hex2(out, obj.binary[start + j]);
                proof {
                    let t = obj.bytes().subrange(start as int, start + j + 1);
                    assert(t.drop_last() =~= obj.bytes().subrange(start as int, start + j));
                }
                j = j + 1;
            }
            push_spaces(out, 21 - 2 * n);
        },
        None => push_spaces(out, 29),
    }
    push_char(out, '|');
    push_char(out, ' ');
    out.append(line.src.as_str());
    push_char(out, '\n');
    assert(out@ =~= old(out)@ + yo_line(*line, obj.bytes()));
}

impl ObjectExt {
    /// The `.yo` listing: each source line annotated with its address and
    /// the bytes placed there.
    pub fn to_yo(&self) -> (r: String)
        requires
            self.obj.wf(),
            forall|k: int| 0 <= k < self.source.0@.len() ==> (#[trigger] self.source.0@[k]).listable(),
        ensures
            r@ == yo_text(self.source.0@, self.obj.bytes(), self.source.0@.len() as int),
    {
        let lines = &self.source.0;
        let mut out = String::new();
        let mut k: usize = 0;
        while k < lines.len()
            invariant
                self.obj.wf(),
                forall|j: int| 0 <= j < lines@.len() ==> (#[trigger] lines@[j]).listable(),
                lines == &self.source.0,
                k <= lines@.len(),
                out@ == yo_text(lines@, self.obj.bytes(), k as int),
            decreases lines@.len() - k,
        {
            assert(lines@[k as int].listable());
            push_yo_line(&mut out, &lines[k], &self.obj);
            k = k + 1;
        }
        out
    }
}

/// Two hexadecimal digits per byte.
pub proof fn lemma_hex_bytes_len(s: Seq<u8>)
    ensures
        hex_bytes(s).len() == 2 * s.len(),
    decreases s.len(),
{
    if s.len() > 0 {
        lemma_hex_bytes_len(s.drop_last());
    }
}

/// Round trip of assembling and listing: the listing of an instruction line
/// shows as many bytes as the instruction's encoding has (two hexadecimal
/// digits each, padded to 21 columns), and they are the encoding that
/// `write_object` placed.
pub proof fn lemma_listing_shows_encoding(line: LineInfo, inst: Inst<u64>, mem: Seq<u8>, a: u64)
    requires
        line.addr == Some(a),
        line.inst matches Some(i) && spec_icode(i) == spec_icode(inst),
        fields_fit(inst),
        mem.len() == BIN_SIZE,
        a + inst_len(spec_icode(inst)) <= BIN_SIZE,
    ensures
        shown_len(line) == spec_encode(inst).len(),
        overwrite(mem, a as int, spec_encode(inst)).subrange(a as int, a + shown_len(line)) == spec_encode(inst),
        hex_bytes(spec_encode(inst)).len() == 2 * inst_len(spec_icode(inst)),
        hex_bytes(spec_encode(inst)).len() + (21 - 2 * shown_len(line)) == 21,
{
    lemma_encode_len(inst);
    lemma_hex_bytes_len(spec_encode(inst));
    assert(overwrite(mem, a as int, spec_encode(inst)).subrange(a as int, a + shown_len(line)) =~= spec_encode(inst));
}

/// The symbol entries that the first `k` lines define, newest first: each
/// line with both a label and an address defines that label there.
pub open spec fn symbols_of(lines: Seq<LineInfo>, k: int) -> Seq<(Seq<char>, u64)>
    decreases k,
{
    if k <= 0 {
        Seq::empty()
    } else {
        let rest = symbols_of(lines, k - 1);
        match (lines[k - 1].label, lines[k - 1].addr) {
            (Some(l), Some(a)) => seq![(l@, a)] + rest,
            _ => rest,
        }
    }
}

/// Placing the first `k` lines in order: the image, and the first fault.
pub open spec fn place_all(lines: Seq<LineInfo>, mem: Seq<u8>, sym: Seq<(Seq<char>, u64)>, k: int) -> (Seq<u8>, Option<LineFault>)
    decreases k,
{
    if k <= 0 {
        (mem, None)
    } else {
        let (m, f) = place_all(lines, mem, sym, k - 1);
        if f is Some {
            (m, f)
        } else {
            lines[k - 1].spec_place(m, sym)
        }
    }
}

/// Once a line fails, placing more lines changes nothing.
proof fn lemma_place_all_stops(lines: Seq<LineInfo>, mem: Seq<u8>, sym: Seq<(Seq<char>, u64)>, k: int, n: int)
    requires
        1 <= k <= n,
        place_all(lines, mem, sym, k).1 is Some,
    ensures
        place_all(lines, mem, sym, n) == place_all(lines, mem, sym, k),
    decreases n - k,
{
    if k < n {
        lemma_place_all_stops(lines, mem, sym, k, n - 1);
    }
}

/// Assemble decoded source lines: a symbol pass defines every label at its
/// line's address, then each line is encoded at its address. Fails on the
/// first line that names an undefined label or does not fit.
pub fn assemble_lines(lines: Vec<LineInfo>) -> (r: Result<ObjectExt, ObjError>)
    requires
        forall|k: int| 0 <= k < lines@.len() ==> (#[trigger] lines@[k]).wf(),
    ensures
        ({
            let obj0 = Seq::new(BIN_SIZE as nat, |i: int| 0u8);
            let syms = symbols_of(lines@, lines@.len() as int);
            let placed = place_all(lines@, obj0, syms, lines@.len() as int);
            &&& r is Ok <==> placed.1 is None
            &&& r matches Ok(o) ==> {
                &&& o.obj.wf()
                &&& o.obj.symbols.view() == syms
                &&& o.source.0@ == lines@
                &&& o.obj.bytes() == placed.0
            }
            &&& r matches Err(e) ==> line_reports(Err(e), placed.1)
        }),
{
    let mut obj = Object::new();
    let mut k: usize = 0;
    while k < lines.len()
        invariant
            k <= lines@.len(),
            obj.wf(),
            obj.bytes() == Seq::new(BIN_SIZE as nat, |i: int| 0u8),
            obj.symbols.view() == symbols_of(lines@, k as int),
        decreases lines@.len() - k,
    {
        if let (Some(l), Some(a)) = (&lines[k].label, lines[k].addr) {
            obj.symbols.insert(l.clone(), a);
        }
        k = k + 1;
    }
    let ghost obj0 = obj.bytes();
    let ghost syms = obj.symbols.view();
    let mut k: usize = 0;
    while k < lines.len()
        invariant
            forall|j: int| 0 <= j < lines@.len() ==> (#[trigger] lines@[j]).wf(),
            k <= lines@.len(),
            obj.wf(),
            obj.symbols.view() == syms,
            syms == symbols_of(lines@, lines@.len() as int),
            obj0 == Seq::new(BIN_SIZE as nat, |i: int| 0u8),
            place_all(lines@, obj0, syms, k as int) == (obj.bytes(), None::<LineFault>),
        decreases lines@.len() - k,
    {
        assert(lines@[k as int].wf());
        let ghost before = obj.bytes();
        let r = lines[k].write_object(&mut obj);
        assert(place_all(lines@, obj0, syms, k + 1) == lines@[k as int].spec_place(before, syms));
        if let Err(e) = r {
            proof {
                lemma_place_all_stops(lines@, obj0, syms, k as int + 1, lines@.len() as int);
            }
            return Err(e);
        }
        k = k + 1;
    }
    Ok(ObjectExt { obj, source: SourceInfo(lines) })
}

} // verus!
