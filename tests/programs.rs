use y86_sim::framework::MEM_SIZE;
use y86_sim::inst::{Addr, Imm, Inst};
use y86_sim::isa::cond_fn::{E, LE, YES};
use y86_sim::isa::op_code::{ADD, AND, SUB, XOR};
use y86_sim::isa::reg_code::{R10, R8, R9, RAX, RBX, RCX, RDI, RDX, RSI, RSP};
use y86_sim::isa::{simulate, IsaError, StandardResult};
use y86_sim::object::{assemble_lines, LineInfo, ObjError, ObjectExt};
use y86_sim::utils::get_u64;

enum Item {
    I(Inst<Imm>),
    Quad(Imm),
    Pos(u64),
}

/// Lay items out from address 0, as the assembler's address pass does.
fn lines_of(items: Vec<(Option<&str>, Item)>) -> Vec<LineInfo> {
    let mut pc: u64 = 0;
    let mut lines = Vec::new();
    for (label, item) in items {
        let label = label.map(|l| l.to_string());
        match item {
            Item::I(inst) => {
                let len = inst.len() as u64;
                let src = format!("{:?}", inst);
                lines.push(LineInfo { addr: Some(pc), inst: Some(inst), label, data: None, src });
                pc += len;
            }
            Item::Quad(v) => {
                let src = format!(".quad {:?}", v);
                lines.push(LineInfo { addr: Some(pc), inst: None, label, data: Some((8, v)), src });
                pc += 8;
            }
            Item::Pos(a) => {
                pc = a;
                let src = format!(".pos {:#x}", a);
                lines.push(LineInfo { addr: Some(pc), inst: None, label, data: None, src });
            }
        }
    }
    lines
}

fn lbl(s: &str) -> Imm {
    Imm::Label(s.to_string())
}

fn run(items: Vec<(Option<&str>, Item)>) -> (ObjectExt, StandardResult) {
    let a = assemble_lines(lines_of(items)).unwrap();
    let res = simulate(a.obj.init_mem(), 100_000).unwrap();
    (a, res)
}

fn quad_at(res: &StandardResult, addr: u64) -> u64 {
    get_u64(&res.bin[addr as usize..addr as usize + 8])
}

/// `rsum`-like program: sum of a three-element array into %rax.
fn sum_program() -> Vec<(Option<&'static str>, Item)> {
    vec![
        (None, Item::I(Inst::IRMOVQ(RDI, lbl("array")))),
        (None, Item::I(Inst::IRMOVQ(RSI, Imm::Num(3)))),
        (None, Item::I(Inst::OPQ(XOR, RAX, RAX))),
        (Some("loop"), Item::I(Inst::OPQ(AND, RSI, RSI))),
        (None, Item::I(Inst::JX(E, lbl("done")))),
        (None, Item::I(Inst::MRMOVQ(Addr(Some(0), RDI), RCX))),
        (None, Item::I(Inst::OPQ(ADD, RCX, RAX))),
        (None, Item::I(Inst::IOPQ(ADD, Imm::Num(8), RDI))),
        (None, Item::I(Inst::IOPQ(SUB, Imm::Num(1), RSI))),
        (None, Item::I(Inst::JX(YES, lbl("loop")))),
        (Some("done"), Item::I(Inst::HALT)),
        (None, Item::Pos(0x100)),
        (Some("array"), Item::Quad(Imm::Num(0x00d))),
        (None, Item::Quad(Imm::Num(0x0e0))),
        (None, Item::Quad(Imm::Num(0xf00))),
    ]
}

#[test]
fn test_assemble() {
    let r = assemble_lines(lines_of(sum_program())).unwrap();
    let yo = r.to_yo();
    println!("{}", yo);
    let first = yo.lines().next().unwrap();
    assert!(first.starts_with("0x0000: 30f70001000000000000 "));
    assert_eq!(first.find('|'), Some(29));
    assert_eq!(r.obj.symbols.get(&"array".to_string()), Some(0x100));
    assert_eq!(r.obj.symbols.get(&"loop".to_string()), Some(22));
}

#[test]
fn listing_fields_match_instruction_lengths() {
    let r = assemble_lines(lines_of(sum_program())).unwrap();
    let yo = r.to_yo();
    let expected = [10usize, 10, 2, 2, 9, 10, 2, 10, 10, 9, 1, 0, 8, 8, 8];
    for (line, len) in yo.lines().zip(expected.iter()) {
        let field = line[8..29].trim_end();
        assert_eq!(field.len(), 2 * len, "{}", line);
    }
}

#[test]
fn listing_line_without_address() {
    let lines = vec![LineInfo { addr: None, inst: None, label: None, data: None, src: "# comment".to_string() }];
    let r = assemble_lines(lines).unwrap();
    assert_eq!(r.to_yo(), format!("{}| # comment\n", " ".repeat(29)));
}

#[test]
fn sum_scenario() {
    let (_, res) = run(sum_program());
    assert_eq!(res.regs[RAX as usize], 0xfed);
    assert_eq!(res.regs[RAX as usize], 0x00d + 0x0e0 + 0xf00);
}

#[test]
fn iopq_scenario() {
    let (_, res) = run(vec![
        (None, Item::I(Inst::IOPQ(ADD, Imm::Num(5), RBX))),
        (None, Item::I(Inst::HALT)),
    ]);
    assert_eq!(res.regs[RBX as usize], 5);
    assert!(!res.cc.zf && !res.cc.sf && !res.cc.of);
    assert_eq!(res.n_insts, 2);
}

#[test]
fn call_ret_scenario() {
    let (_, res) = run(vec![
        (None, Item::I(Inst::IRMOVQ(RSP, Imm::Num(0x100)))),
        (None, Item::I(Inst::CALL(lbl("target")))),
        (None, Item::I(Inst::HALT)),
        (None, Item::Pos(0x20)),
        (Some("target"), Item::I(Inst::IRMOVQ(RAX, Imm::Num(0x42)))),
        (None, Item::I(Inst::RET)),
    ]);
    assert_eq!(res.regs[RAX as usize], 0x42);
    assert_eq!(res.regs[RSP as usize], 0x100);
    // the HALT sits at 0x13, after the 10-byte IRMOVQ and the 9-byte CALL;
    // the final pc is one past it
    assert_eq!(res.pc, 0x14);
    // return address pushed by CALL stays below the stack top
    assert_eq!(quad_at(&res, 0xf8), 19);
}

#[test]
fn ncopy_scenario() {
    let data: [i64; 3] = [1, -1, 2];
    let mut items = vec![
        (None, Item::I(Inst::IRMOVQ(RDI, lbl("data_to_copy")))),
        (None, Item::I(Inst::IRMOVQ(RSI, lbl("data_dst")))),
        (None, Item::I(Inst::IRMOVQ(RDX, Imm::Num(3)))),
        (None, Item::I(Inst::OPQ(XOR, RAX, RAX))),
        (Some("loop"), Item::I(Inst::OPQ(AND, RDX, RDX))),
        (None, Item::I(Inst::JX(LE, lbl("done")))),
        (None, Item::I(Inst::MRMOVQ(Addr(Some(0), RDI), R10))),
        (None, Item::I(Inst::RMMOVQ(R10, Addr(Some(0), RSI)))),
        (None, Item::I(Inst::OPQ(AND, R10, R10))),
        (None, Item::I(Inst::JX(LE, lbl("npos")))),
        (None, Item::I(Inst::IOPQ(ADD, Imm::Num(1), RAX))),
        (Some("npos"), Item::I(Inst::IOPQ(ADD, Imm::Num(8), RDI))),
        (None, Item::I(Inst::IOPQ(ADD, Imm::Num(8), RSI))),
        (None, Item::I(Inst::IOPQ(SUB, Imm::Num(1), RDX))),
        (None, Item::I(Inst::JX(YES, lbl("loop")))),
        (Some("done"), Item::I(Inst::HALT)),
        (None, Item::Pos(0x200)),
    ];
    for (i, d) in data.iter().enumerate() {
        let label = if i == 0 { Some("data_to_copy") } else { None };
        items.push((label, Item::Quad(Imm::Num(*d as u64))));
    }
    items.push((None, Item::Pos(0x300)));
    items.push((Some("data_dst"), Item::Pos(0x300)));
    let (a, res) = run(items);
    let src = a.obj.symbols.get(&"data_to_copy".to_string()).unwrap() as usize;
    let dst = a.obj.symbols.get(&"data_dst".to_string()).unwrap() as usize;
    assert_eq!(res.bin[src..src + 24], res.bin[dst..dst + 24]);
    assert_eq!(res.regs[RAX as usize], 2);
}

#[test]
fn bubble_sort_scenario() {
    let values = [0xbca, 0xcba, 0xacb, 0xcab, 0xabc, 0xbac];
    let mut items = vec![
        (None, Item::I(Inst::IRMOVQ(RSI, Imm::Num(5)))),
        (Some("outer"), Item::I(Inst::OPQ(AND, RSI, RSI))),
        (None, Item::I(Inst::JX(LE, lbl("end")))),
        (None, Item::I(Inst::IRMOVQ(RDX, lbl("array")))),
        (None, Item::I(Inst::CMOVX(YES, RSI, RCX))),
        (Some("inner"), Item::I(Inst::OPQ(AND, RCX, RCX))),
        (None, Item::I(Inst::JX(LE, lbl("inner_end")))),
        (None, Item::I(Inst::MRMOVQ(Addr(Some(0), RDX), R8))),
        (None, Item::I(Inst::MRMOVQ(Addr(Some(8), RDX), R9))),
        (None, Item::I(Inst::CMOVX(YES, R8, R10))),
        (None, Item::I(Inst::OPQ(SUB, R9, R10))),
        (None, Item::I(Inst::JX(LE, lbl("noswap")))),
        (None, Item::I(Inst::RMMOVQ(R9, Addr(Some(0), RDX)))),
        (None, Item::I(Inst::RMMOVQ(R8, Addr(Some(8), RDX)))),
        (Some("noswap"), Item::I(Inst::IOPQ(ADD, Imm::Num(8), RDX))),
        (None, Item::I(Inst::IOPQ(SUB, Imm::Num(1), RCX))),
        (None, Item::I(Inst::JX(YES, lbl("inner")))),
        (Some("inner_end"), Item::I(Inst::IOPQ(SUB, Imm::Num(1), RSI))),
        (None, Item::I(Inst::JX(YES, lbl("outer")))),
        (Some("end"), Item::I(Inst::HALT)),
        (None, Item::Pos(0x400)),
    ];
    for (i, v) in values.iter().enumerate() {
        let label = if i == 0 { Some("array") } else { None };
        items.push((label, Item::Quad(Imm::Num(*v))));
    }
    let (a, res) = run(items);
    let base = a.obj.symbols.get(&"array".to_string()).unwrap();
    let got: Vec<u64> = (0..6).map(|i| quad_at(&res, base + 8 * i)).collect();
    assert_eq!(got, vec![0xabc, 0xacb, 0xbac, 0xbca, 0xcab, 0xcba]);
}

#[test]
fn undefined_label_fails_assembly() {
    let lines = lines_of(vec![(None, Item::I(Inst::JX(YES, lbl("nowhere"))))]);
    match assemble_lines(lines) {
        Err(ObjError::UndefinedLabel(l)) => assert_eq!(l, "nowhere"),
        other => panic!("unexpected: {:?}", other.map(|_| ())),
    }
}

#[test]
fn line_out_of_range_fails_assembly() {
    let lines = vec![LineInfo {
        addr: Some(MEM_SIZE as u64 - 4),
        inst: Some(Inst::IRMOVQ(RAX, Imm::Num(1))),
        label: None,
        data: None,
        src: String::new(),
    }];
    match assemble_lines(lines) {
        Err(ObjError::OutOfRange(a)) => assert_eq!(a, MEM_SIZE as u64 - 4),
        other => panic!("unexpected: {:?}", other.map(|_| ())),
    }
}

#[test]
fn reference_errors() {
    // unknown instruction code 0xd
    let mut mem = vec![0u8; MEM_SIZE];
    mem[0] = 0xd0;
    assert!(matches!(simulate(mem, 10), Err(IsaError::UnknownIcode(0xd))));
    // HALT with a non-zero function code
    let mut mem = vec![0u8; MEM_SIZE];
    mem[0] = 0x01;
    assert!(matches!(simulate(mem, 10), Err(IsaError::InvalidIfun { icode: 0, ifun: 1 })));
    // IRMOVQ whose rA is not RNONE
    let mut mem = vec![0u8; MEM_SIZE];
    mem[0] = 0x30;
    mem[1] = 0x00;
    assert!(matches!(simulate(mem, 10), Err(IsaError::InvalidRegister(0))));
    // NOP, NOP, then an unconditional jump back to 0: the budget runs out
    let mut mem = vec![0u8; MEM_SIZE];
    mem[0] = 0x10;
    mem[1] = 0x10;
    mem[2] = 0x70;
    assert!(matches!(simulate(mem, 10), Err(IsaError::StepLimit)));
    // PUSHQ with %rsp = 0 underflows the stack pointer
    let mut mem = vec![0u8; MEM_SIZE];
    mem[0] = 0xa0;
    mem[1] = 0x0f;
    assert!(matches!(simulate(mem, 10), Err(IsaError::RspOverflow)));
    // a store beyond the memory
    let mut mem = vec![0u8; MEM_SIZE];
    mem[0] = 0x40;
    mem[1] = 0x0f;
    mem[2..10].copy_from_slice(&0xfffc_u64.to_le_bytes());
    assert!(matches!(simulate(mem, 10), Err(IsaError::InvalidAddress(0xfffc))));
    // OPQ with an unknown function
    let mut mem = vec![0u8; MEM_SIZE];
    mem[0] = 0x67;
    assert!(matches!(simulate(mem, 10), Err(IsaError::InvalidIfun { icode: 6, ifun: 7 })));
}

#[test]
fn overflow_flag_of_add_and_sub() {
    let (_, res) = run(vec![
        (None, Item::I(Inst::IRMOVQ(RAX, Imm::Num(0x7fff_ffff_ffff_ffff)))),
        (None, Item::I(Inst::IOPQ(ADD, Imm::Num(1), RAX))),
        (None, Item::I(Inst::HALT)),
    ]);
    assert_eq!(res.regs[RAX as usize], 0x8000_0000_0000_0000);
    assert!(res.cc.of && res.cc.sf && !res.cc.zf);
    let (_, res) = run(vec![
        (None, Item::I(Inst::IRMOVQ(RAX, Imm::Num(0x8000_0000_0000_0000)))),
        (None, Item::I(Inst::IOPQ(SUB, Imm::Num(1), RAX))),
        (None, Item::I(Inst::HALT)),
    ]);
    assert_eq!(res.regs[RAX as usize], 0x7fff_ffff_ffff_ffff);
    assert!(res.cc.of && !res.cc.sf);
}

#[test]
fn no_register_reads_zero_and_ignores_writes() {
    let (_, res) = run(vec![
        (None, Item::I(Inst::IRMOVQ(0xf, Imm::Num(5)))),
        (None, Item::I(Inst::IRMOVQ(RAX, Imm::Num(7)))),
        (None, Item::I(Inst::OPQ(ADD, RAX, 0xf))),
        (None, Item::I(Inst::CMOVX(YES, 0xf, RBX))),
        (None, Item::I(Inst::HALT)),
    ]);
    assert_eq!(res.regs[0xf], 0);
    assert_eq!(res.regs[RBX as usize], 0);
    assert_eq!(res.regs[RAX as usize], 7);
    assert_eq!(res.pc, 10 + 10 + 2 + 2 + 1);
}
