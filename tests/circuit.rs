use y86_sim::compile::Layout;
use y86_sim::framework::{Device, Mismatch, NodeAction, PipeSim, PropCircuit, SimOption, StageReg, StopReason, UnitDef};
use y86_sim::hcl::{attach_destination, distinct_names, LhsRef, StageDecl, Case, Expr, LValue, NameTables, SignalDef, SignalDest, SignalSource, Target, Wires};
use y86_sim::order::{CyclicGraph, PropOrder, PropOrderBuilder};

#[test]
fn test_draw() {
    println!(
        r#"
                     ┏━━━━━━━━━━━━━━━━━━━━━━━━━━━━━━━━━━━━━━┓
                     ┃      ┏━━━━━━━━━━━━━━━━━━━━━━━━━━━━━━┓┃
W stat icode       valE   valM      dstE dstM              ┃┃
   │     │           ┃      ┣━━━━━━━━│━━━━│━━━━━━━━━━━━━━━┓┃┃
   │     ├───#Mem.##┄┃┄┄┄┄┄Data##    │    │               ┃┃┃ 
   │     ├───Control┄┃┄┄┄┄┄memory    │    │               ┃┃┃
   │     │           ┃  Addr┛  ┃     │    │               ┃┃┃
   │     │           ┃  ┃ ┗━━━━┃━━━━━│━━━━│━━━━━━━━━━━━━━┓┃┃┃
   │     │           ┗━━╋━━━━━━┃━━━━━│━━━━│━━━━━━━━━━━━━┓┃┃┃┃
M stat icode    Cnd   valE   valA   dstE dstM           ┃┃┃┃┃
   │     │       │      ┣━━━━━━┃━━━━━│━━━━│━━━━━━━━━━━━┓┃┃┃┃┃
   │     │       CC─────ALU ┏━━┛     │    │            ┃┃┃┃┃┃
   │     │          AluA┛ ┗━┃━━AluB  │    │            ┃┃┃┃┃┃
   │     │           ┃┗━━━━━┫    ┃   │    │            ┃┃┃┃┃┃
E stat icode   ifun valC  valA valB dstE dstM srcA srcB┃┃┃┃┃┃
   │     │       │   ┃      ┃    ┃                     ┃┃┃┃┃┃
   │     │       │   ┃  #######━###━━━━━━━━━━━━━━━━━━━━┛┃┃┃┃┃
   │     │       │   ┃  #######━###━━━━━━━━━━━━━━━━━━━━━┛┃┃┃┃
   │     │       │   ┃  Sel+Fwd━Fwd━━━━━━━━━━━━━━━━━━━━━━┃┛┃┃
   │     │       │   ┃  ###A###━#B#━━━━━━━━━━━━━━━━━━━━━━┃━┫┃
   │     │       │   ┃  #######━###━━━━━━━━━━━━━━━━━━━━━━┃━┃┫
   │     │       │   ┃      ┃ ┃  ┃                       ┃ ┃┃
   │     │       │   ┃      ┃ ┗Register━━━━━━━━━━━━━━━━━━┃━┫┃
   │     │       │   ┃      ┗┓ ##file##━━━━━━━━━━━━━━━━━━┃━┃┛
   │     │       │   ┗━━━━━┓ ┗━━━┓                       ┃ ┃
D stat icode   ifun rA rB valC  valP                     ┃ ┃
   │     │       │   │ │   ┣━━━━━┃━━━━━━━━━━Predict      ┃ ┃
  Stat───┴───┐   │   │ │   ┃     ┣━━━━━━━━━━##PC###      ┃ ┃
             Instruction━━━┛  ###PC####        ┃         ┃ ┃
             ##memory###      increment        ┃         ┃ ┃
                  ┣━━━━━━━━━━━━━━┛             ┃         ┃ ┃
                Select━━━━━━━━━━━━━━━━━━━━━━━━━┃━━━━━━━━━┛ ┃
                ##PC##━━━━━━━━━━━━━━━━━━━━━━━━━┃━━━━━━━━━━━┛
F        predPC━┛                              ┃
            ┗━━━━━━━━━━━━━━━━━━━━━━━━━━━━━━━━━━┛
"#
    )
}

fn graph(n_units: usize, n_inter: usize, edges: &[(usize, usize)]) -> PropOrderBuilder {
    let mut b = PropOrderBuilder::new();
    for i in 0..n_units {
        b.add_node(format!("unit{}", i), true);
    }
    for i in 0..n_inter {
        b.add_node(format!("sig{}", i), false);
    }
    for (a, c) in edges {
        b.add_edge(*a, *c);
    }
    b
}

fn position(po: &PropOrder, v: usize) -> usize {
    po.order.iter().position(|x| *x == v).unwrap()
}

#[test]
fn order_respects_every_edge() {
    // two units (0, 1) and three signals (2, 3, 4): 2 -> 0 -> 3 -> 1 -> 4
    let edges = [(2, 0), (0, 3), (3, 1), (1, 4)];
    let po = graph(2, 3, &edges).build().unwrap();
    assert_eq!(po.order.len(), 5);
    for (a, c) in edges {
        assert!(position(&po, a) < position(&po, c));
    }
    assert_eq!(po.max_dist, 2);
}

#[test]
fn cyclic_graph_has_no_order() {
    let r = graph(1, 2, &[(0, 1), (1, 2), (2, 0)]).build();
    assert_eq!(r.err(), Some(CyclicGraph));
    let r = graph(0, 1, &[(0, 0)]).build();
    assert_eq!(r.err(), Some(CyclicGraph));
}

#[test]
fn cycle_cost_counts_units_on_longest_chain() {
    // units 0, 1, 2 in a chain through signals 3 and 4; unit 2 also alone
    let po = graph(3, 2, &[(0, 3), (3, 1), (1, 4), (4, 2)]).build().unwrap();
    assert_eq!(po.max_dist, 3);
    let po = graph(0, 0, &[]).build().unwrap();
    assert_eq!(po.max_dist, 0);
    let po = graph(2, 0, &[]).build().unwrap();
    assert_eq!(po.max_dist, 1);
}

#[test]
fn stage_mux_rules() {
    let mut cur = StageReg::new(vec![0, 0]);
    let mut next = StageReg::new(vec![0, 0]);
    next.fields = vec![5, 6];
    assert!(!cur.mux(&next));
    assert_eq!(cur.fields, vec![5, 6]);
    next.fields = vec![7, 8];
    next.stall = true;
    assert!(!cur.mux(&next));
    assert_eq!(cur.fields, vec![5, 6]);
    next.stall = false;
    next.bubble = true;
    assert!(!cur.mux(&next));
    assert_eq!(cur.fields, vec![0, 0]);
    cur.fields = vec![1, 2];
    next.stall = true;
    assert!(cur.mux(&next));
    assert_eq!(cur.fields, vec![0, 0]);
}

fn lit(v: u64) -> Expr {
    Expr::Lit(v)
}

fn dest(t: Target) -> SignalDest {
    SignalDest { tunnel: None, dest: t }
}

fn signal(name: usize, e: Expr, dests: Vec<SignalDest>) -> SignalDef {
    SignalDef { name, default: 0, source: SignalSource::Expr(None, e), destinations: dests }
}

fn wires(n_in: usize, n_out: usize, n_inter: usize, cur: Vec<u64>, n_stages: usize) -> Wires {
    Wires {
        unit_in: vec![0; n_in],
        unit_out: vec![0; n_out],
        inter: vec![0; n_inter],
        next: cur.clone(),
        cur,
        next_bubble: vec![false; n_stages],
        next_stall: vec![false; n_stages],
        regs: vec![0; 16],
        mem: vec![0; 64],
    }
}

/// One stage `D` of two fields (defaults 0) and signals that ask for both a
/// bubble and a stall of `D`.
fn conflict_sim() -> PipeSim {
    let order = graph(0, 4, &[]).build().unwrap();
    let signals = vec![
        signal(0, lit(1), vec![dest(Target::Bubble(0))]),
        signal(1, lit(1), vec![dest(Target::Stall(0))]),
        signal(2, Expr::Read(LValue::Prev(0)), vec![dest(Target::Stage(1))]),
        signal(3, lit(0), vec![]),
    ];
    let circuit = PropCircuit {
        order,
        actions: (0..4).map(NodeAction::Signal).collect(),
        units: vec![],
        signals,
    };
    PipeSim {
        circuit,
        wires: wires(0, 0, 4, vec![7, 8], 1),
        stage_of: vec![0, 0],
        defaults: vec![0, 0],
        pc_signal: 2,
        term_signal: 3,
        cycle_count: 0,
        terminate: false,
    }
}

#[test]
fn bubble_and_stall_conflict_resolves_as_bubble() {
    let mut sim = conflict_sim();
    sim.propagate_signals();
    assert_eq!(sim.wires.next, vec![7, 7]);
    let conflicts = sim.initiate_next_cycle();
    assert_eq!(conflicts, vec![true]);
    assert_eq!(sim.wires.cur, vec![0, 0]);
    assert_eq!(sim.cycle_count(), 1);
    assert!(!sim.is_terminate());
}

/// An ALU unit (node 0) fed by signals `a`, `b`, `fun` (nodes 3, 4, 5
/// through input ports, nodes 1 and 2 being unused ports), whose output
/// feeds signal `r` (node 6), which goes to stage field 0; `pc` (node 7)
/// reads the previous-cycle field; `done` (node 8) is a switch that fires
/// once `r` reaches stage field 1, and is latched into field 2.
fn alu_sim() -> PipeSim {
    let mut b = PropOrderBuilder::new();
    let alu = b.add_node("alu".to_string(), true);
    let p_in = b.add_node("alu.in".to_string(), false);
    let p_out = b.add_node("alu.e".to_string(), false);
    let a = b.add_node("a".to_string(), false);
    let bb = b.add_node("b".to_string(), false);
    let fun = b.add_node("fun".to_string(), false);
    let r = b.add_node("r".to_string(), false);
    let pc = b.add_node("pc".to_string(), false);
    let done = b.add_node("done".to_string(), false);
    for s in [a, bb, fun] {
        b.add_edge(s, p_in);
    }
    b.add_edge(p_in, alu);
    b.add_edge(alu, p_out);
    b.add_edge(p_out, r);
    b.add_edge(r, done);
    let order = b.build().unwrap();
    let mut actions = vec![NodeAction::Port; 9];
    actions[alu] = NodeAction::Unit(0);
    for (node, def) in [(a, 0), (bb, 1), (fun, 2), (r, 3), (pc, 4), (done, 5)] {
        actions[node] = NodeAction::Signal(def);
    }
    let signals = vec![
        signal(0, lit(3), vec![dest(Target::UnitIn(0))]),
        signal(1, Expr::Read(LValue::Prev(0)), vec![dest(Target::UnitIn(1))]),
        signal(2, lit(0), vec![dest(Target::UnitIn(2))]),
        signal(3, Expr::Read(LValue::UnitOut(0)), vec![dest(Target::Stage(0))]),
        signal(4, Expr::Read(LValue::Prev(0)), vec![]),
        SignalDef {
            name: 5,
            default: 0,
            source: SignalSource::Switch(vec![
                Case {
                    tunnel: Some(7),
                    condition: Expr::In(Box::new(Expr::Read(LValue::Inter(3))), vec![LValue::Prev(1)]),
                    value: lit(1),
                },
                Case { tunnel: None, condition: lit(1), value: lit(0) },
            ]),
            destinations: vec![SignalDest { tunnel: Some(9), dest: Target::Stage(2) }],
        },
    ];
    let units = vec![UnitDef { device: Device::Alu, inputs: vec![0, 1, 2], outputs: vec![0] }];
    PipeSim {
        circuit: PropCircuit { order, actions, units, signals },
        wires: wires(3, 1, 6, vec![0, 12, 0], 1),
        stage_of: vec![0, 0, 0],
        defaults: vec![0, 12, 0],
        pc_signal: 4,
        term_signal: 5,
        cycle_count: 0,
        terminate: false,
    }
}

#[test]
fn alu_circuit_runs_until_termination() {
    let mut sim = alu_sim();
    assert_eq!(sim.cycle_cost(), 1);
    let mut pcs = vec![];
    let mut traces = vec![];
    while !sim.is_terminate() {
        traces.push(sim.step().trace);
        pcs.push(sim.program_counter());
    }
    // the field counts up by 3 until it reaches 12
    assert_eq!(pcs, vec![0, 3, 6, 9]);
    assert_eq!(sim.cycle_count(), 4);
    assert_eq!(traces.last().unwrap(), &vec![7, 9]);
    assert!(traces[0].is_empty());
}

#[test]
fn propagation_is_deterministic() {
    let mut a = alu_sim();
    let mut b = alu_sim();
    for _ in 0..3 {
        a.step();
        b.step();
        assert_eq!(a.program_counter(), b.program_counter());
        assert_eq!(a.wires.inter, b.wires.inter);
        assert_eq!(a.cycle_count(), b.cycle_count());
        assert_eq!(a.is_terminate(), b.is_terminate());
    }
}

#[test]
fn propagation_twice_is_idempotent() {
    let mut sim = alu_sim();
    sim.step();
    sim.propagate_signals();
    let (out, inter) = (sim.wires.unit_out.clone(), sim.wires.inter.clone());
    sim.propagate_signals();
    assert_eq!(sim.wires.unit_out, out);
    assert_eq!(sim.wires.inter, inter);
}

/// The ALU circuit of `alu_sim`, compiled from its definitions: one unit,
/// three input ports, one output port, six intermediates.
fn compiled_alu() -> Result<PropCircuit, CyclicGraph> {
    let l = Layout { n_units: 1, n_in: 3, n_out: 1, n_inter: 6 };
    let names = ["alu", "alu.a", "alu.b", "alu.fun", "alu.e", "a", "b", "fun", "r", "pc", "done"]
        .iter()
        .map(|s| s.to_string())
        .collect();
    let units = vec![UnitDef { device: Device::Alu, inputs: vec![0, 1, 2], outputs: vec![0] }];
    let signals = vec![
        signal(5, Expr::Read(LValue::Inter(3)), vec![]),
        signal(0, lit(3), vec![dest(Target::UnitIn(0))]),
        signal(1, Expr::Read(LValue::Prev(0)), vec![dest(Target::UnitIn(1))]),
        signal(2, lit(0), vec![dest(Target::UnitIn(2))]),
        signal(3, Expr::Read(LValue::UnitOut(0)), vec![dest(Target::Stage(0))]),
        signal(4, Expr::Read(LValue::Prev(0)), vec![]),
    ];
    PropCircuit::compile(l, names, units, signals)
}

#[test]
fn compiled_order_puts_producers_first() {
    let c = compiled_alu().unwrap();
    let po = &c.order;
    let inter = |i: usize| 5 + i;
    // inputs of the unit before it, its output after it
    for port in [1, 2, 3] {
        assert!(position(po, port) < position(po, 0));
    }
    assert!(position(po, 0) < position(po, 4));
    // signals driving the inputs before the ports; `r` after the output
    assert!(position(po, inter(0)) < position(po, 1));
    assert!(position(po, 4) < position(po, inter(3)));
    // `done` reads `r`
    assert!(position(po, inter(3)) < position(po, inter(5)));
    assert_eq!(c.actions[0], NodeAction::Unit(0));
    assert_eq!(c.actions[inter(5)], NodeAction::Signal(0));
    assert_eq!(c.actions[inter(0)], NodeAction::Signal(1));
    assert_eq!(c.actions[2], NodeAction::Port);
    assert_eq!(po.nodes[inter(3)].name, "r");
    assert_eq!(po.max_dist, 1);
    // a stage destination makes no edge: `r` feeds field 0 without one
    assert_eq!(po.edges.len(), 3 + 1 + 1 + 1 + 1 + 1 + 1);
}

#[test]
fn compiled_cycle_is_refused() {
    let l = Layout { n_units: 0, n_in: 0, n_out: 0, n_inter: 2 };
    let names = vec!["x".to_string(), "y".to_string()];
    let signals = vec![
        signal(0, Expr::Read(LValue::Inter(1)), vec![]),
        signal(1, Expr::Not(Box::new(Expr::Read(LValue::Inter(0)))), vec![]),
    ];
    assert_eq!(PropCircuit::compile(l, names, vec![], signals).err(), Some(CyclicGraph));
}

#[test]
fn previous_stage_reads_break_feedback() {
    // x reads the latched field that x itself feeds: no cycle
    let l = Layout { n_units: 0, n_in: 0, n_out: 0, n_inter: 1 };
    let signals = vec![signal(0, Expr::Read(LValue::Prev(0)), vec![dest(Target::Stage(0))])];
    let c = PropCircuit::compile(l, vec!["x".to_string()], vec![], signals).unwrap();
    assert!(c.order.edges.is_empty());
}

fn strings(v: &[&str]) -> Vec<String> {
    v.iter().map(|s| s.to_string()).collect()
}

fn pairs(v: &[(&str, &str)]) -> Vec<(String, String)> {
    v.iter().map(|(a, b)| (a.to_string(), b.to_string())).collect()
}

fn tables() -> NameTables {
    NameTables {
        inters: strings(&["f_pc", "e_valA"]),
        aliases: pairs(&[("d", "D")]),
        fields: pairs(&[("d", "icode"), ("d", "valC")]),
        stages: strings(&["d"]),
        inputs: pairs(&[("alu", "a")]),
        outputs: pairs(&[("alu", "e")]),
    }
}

#[test]
fn names_in_expressions() {
    let t = tables();
    assert_eq!(t.resolve_rhs(&strings(&["f_pc"])), Some(LValue::Inter(0)));
    assert_eq!(t.resolve_rhs(&strings(&["e_valA"])), Some(LValue::Inter(1)));
    assert_eq!(t.resolve_rhs(&strings(&["D", "valC"])), Some(LValue::Prev(1)));
    assert_eq!(t.resolve_rhs(&strings(&["alu", "e"])), Some(LValue::UnitOut(0)));
    assert_eq!(t.resolve_rhs(&strings(&["d", "icode"])), None);
    assert_eq!(t.resolve_rhs(&strings(&["alu", "x"])), None);
    assert_eq!(t.resolve_rhs(&strings(&["nothing"])), None);
    assert_eq!(t.resolve_rhs(&strings(&[])), None);
}

#[test]
fn names_as_destinations() {
    let t = tables();
    assert_eq!(t.resolve_lhs(&strings(&["d", "icode"])), Some(LhsRef::Place(Target::Stage(0))));
    assert_eq!(t.resolve_lhs(&strings(&["d", "valC"])), Some(LhsRef::Place(Target::Stage(1))));
    assert_eq!(t.resolve_lhs(&strings(&["d", "bubble"])), Some(LhsRef::Place(Target::Bubble(0))));
    assert_eq!(t.resolve_lhs(&strings(&["d", "stall"])), Some(LhsRef::Place(Target::Stall(0))));
    assert_eq!(t.resolve_lhs(&strings(&["alu", "a"])), Some(LhsRef::Place(Target::UnitIn(0))));
    assert_eq!(t.resolve_lhs(&strings(&["e_valA"])), Some(LhsRef::Inter(1)));
    assert_eq!(t.resolve_lhs(&strings(&["D", "icode"])), None);
    assert_eq!(t.resolve_lhs(&strings(&["f_pc", "x"])), None);
    assert_eq!(t.resolve_lhs(&strings(&["alu"])), None);
    assert_eq!(t.resolve_rhs(&strings(&["alu", "e", "x"])), None);
}

#[test]
fn set_input_adds_a_destination() {
    let mut defs = vec![signal(0, lit(1), vec![]), signal(2, lit(2), vec![dest(Target::Stage(0))])];
    assert!(attach_destination(&mut defs, 2, Target::UnitIn(4)));
    assert_eq!(defs[1].destinations, vec![dest(Target::Stage(0)), dest(Target::UnitIn(4))]);
    assert!(defs[0].destinations.is_empty());
    assert!(!attach_destination(&mut defs, 7, Target::UnitIn(0)));
    assert_eq!(defs[1].destinations.len(), 2);
}

#[test]
fn stage_info_lists_signals_by_stage() {
    let mut sim = alu_sim();
    sim.step();
    let names = strings(&["a", "b", "fun", "r", "pc", "done"]);
    let titles: Vec<StageDecl> = ["Fetch", "Execute"].iter().map(|t| StageDecl { name: t.to_string() }).collect();
    let info = sim.get_stage_info(&titles, &names, &vec![0, 0, 0, 1, 0, 1]);
    assert_eq!(info.len(), 2);
    assert_eq!(info[0].name, "Fetch");
    assert_eq!(
        info[1].signals,
        vec![("r".to_string(), "0x3".to_string()), ("done".to_string(), "0x0".to_string())]
    );
    assert_eq!(info[0].signals.len(), 4);
    let info = sim.get_stage_info(&vec![], &names, &vec![0; 6]);
    assert_eq!(info.len(), 1);
    assert_eq!(info[0].name, "(default)");
    assert_eq!(info[0].signals.len(), 6);
}

#[test]
fn run_stops_on_termination_breakpoint_or_limit() {
    let option = SimOption { arch: "alu".to_string(), max_cpu_cycle: 100 };
    let mut sim = alu_sim();
    assert_eq!(sim.run(&vec![], &option), StopReason::Terminated);
    assert_eq!(sim.cycle_count(), 4);
    let mut sim = alu_sim();
    assert_eq!(sim.run(&vec![6], &option), StopReason::Breakpoint(6));
    assert_eq!(sim.cycle_count(), 3);
    let mut sim = alu_sim();
    let short = SimOption { arch: "alu".to_string(), max_cpu_cycle: 2 };
    assert_eq!(sim.run(&vec![], &short), StopReason::CycleLimit);
    assert_eq!(sim.cycle_count(), 2);
}

#[test]
fn lvalues_of_expressions() {
    let e = Expr::And(
        Box::new(Expr::Read(LValue::Inter(1))),
        Box::new(Expr::In(Box::new(Expr::Read(LValue::Prev(2))), vec![LValue::UnitOut(0), LValue::Inter(1)])),
    );
    assert_eq!(e.lvalues(), vec![LValue::Inter(1), LValue::Prev(2), LValue::UnitOut(0), LValue::Inter(1)]);
    let c = Case { tunnel: None, condition: Expr::Read(LValue::Inter(0)), value: lit(4) };
    assert_eq!(c.lvalues(), vec![LValue::Inter(0)]);
    let src = SignalSource::Switch(vec![c, Case { tunnel: None, condition: lit(1), value: Expr::Read(LValue::UnitOut(3)) }]);
    assert_eq!(src.lvalues(), vec![LValue::Inter(0), LValue::UnitOut(3)]);
}

/// A counter in %rax: read %rax, add 1 in the ALU, write it back at the end
/// of the cycle; the sum is also stored at address 8, whose previous value
/// is read back as the program counter. Stops once %rax reads 3.
fn counter_sim() -> PipeSim {
    counter_sim_with(1, 3)
}

fn counter_sim_with(inc: u64, stop: u64) -> PipeSim {
    let l = Layout { n_units: 5, n_in: 14, n_out: 6, n_inter: 14 };
    let names = (0..39).map(|i| format!("n{}", i)).collect();
    let units = vec![
        UnitDef { device: Device::RegRead, inputs: vec![0, 1], outputs: vec![0, 1] },
        UnitDef { device: Device::Alu, inputs: vec![2, 3, 4], outputs: vec![2] },
        UnitDef { device: Device::RegWrite, inputs: vec![5, 6, 7, 8], outputs: vec![] },
        UnitDef { device: Device::MemWrite, inputs: vec![9, 10, 11], outputs: vec![3] },
        UnitDef { device: Device::MemRead, inputs: vec![12, 13], outputs: vec![4, 5] },
    ];
    let to = |p: usize| vec![dest(Target::UnitIn(p))];
    let signals = vec![
        signal(0, lit(0), to(0)),
        signal(1, lit(15), to(1)),
        signal(2, Expr::Read(LValue::UnitOut(0)), to(2)),
        signal(3, lit(inc), to(3)),
        signal(4, lit(0), to(4)),
        signal(5, lit(0), to(5)),
        signal(6, Expr::Read(LValue::UnitOut(2)), to(6)),
        signal(7, lit(15), to(7)),
        signal(8, lit(0), to(8)),
        signal(9, Expr::Eq(Box::new(Expr::Read(LValue::UnitOut(0))), Box::new(lit(stop))), vec![]),
        signal(10, lit(8), to(9)),
        signal(11, Expr::Read(LValue::UnitOut(2)), to(10)),
        signal(12, lit(1), to(11)),
        signal(13, Expr::Read(LValue::UnitOut(4)), vec![]),
    ];
    let circuit = PropCircuit::compile(l, names, units, signals).unwrap();
    PipeSim {
        circuit,
        wires: wires(14, 6, 14, vec![], 0),
        stage_of: vec![],
        defaults: vec![],
        pc_signal: 13,
        term_signal: 9,
        cycle_count: 0,
        terminate: false,
    }
}

#[test]
fn register_file_and_memory_units() {
    // the read address and read enable of the memory read are fixed ports
    let mut sim = ready(counter_sim());
    let mut pcs = vec![];
    while !sim.is_terminate() {
        sim.step();
        pcs.push(sim.program_counter());
    }
    assert_eq!(pcs, vec![0, 1, 2, 3]);
    assert_eq!(sim.registers()[0], 3);
    assert_eq!(sim.cycle_count(), 4);
    assert_eq!(&sim.wires.mem[8..16], &[3, 0, 0, 0, 0, 0, 0, 0]);
    // a second propagation in the same cycle changes no unit output
    let (out, inter) = (sim.wires.unit_out.clone(), sim.wires.inter.clone());
    sim.propagate_signals();
    assert_eq!(sim.wires.unit_out, out);
    assert_eq!(sim.wires.inter, inter);
}

fn ready(mut sim: PipeSim) -> PipeSim {
    sim.wires.unit_in[12] = 8;
    sim.wires.unit_in[13] = 1;
    sim
}

#[test]
fn lockstep_comparison() {
    let mut a = ready(counter_sim());
    let mut b = ready(counter_sim());
    assert_eq!(a.compare_lockstep(&mut b, 100), Ok(4));
    let mut a = ready(counter_sim_with(2, 4));
    let mut b = ready(counter_sim());
    assert_eq!(a.compare_lockstep(&mut b, 100), Err(Mismatch::Registers(1)));
    let mut a = ready(counter_sim_with(1, 2));
    let mut b = ready(counter_sim());
    // the early stop skips its last latch, so the registers differ first
    assert_eq!(a.compare_lockstep(&mut b, 100), Err(Mismatch::Registers(3)));
    let mut a = ready(counter_sim());
    let mut b = ready(counter_sim());
    assert_eq!(a.compare_lockstep(&mut b, 2), Err(Mismatch::CycleLimit));
}

#[test]
fn step_reports_bubble_and_stall_conflict() {
    let mut sim = conflict_sim();
    let report = sim.step();
    assert_eq!(report.conflicts, vec![true]);
    assert_eq!(sim.wires.cur, vec![0, 0]);
}

#[test]
fn switch_without_match_takes_default() {
    let order = graph(0, 1, &[]).build().unwrap();
    let def = SignalDef {
        name: 0,
        default: 9,
        source: SignalSource::Switch(vec![Case { tunnel: None, condition: lit(0), value: lit(1) }]),
        destinations: vec![],
    };
    let circuit = PropCircuit { order, actions: vec![NodeAction::Signal(0)], units: vec![], signals: vec![def] };
    let mut w = wires(0, 0, 1, vec![], 0);
    w.inter[0] = 7;
    let mut sim = PipeSim::new(circuit, w, vec![], vec![], 0, 0).unwrap();
    sim.propagate_signals();
    assert_eq!(sim.wires.inter, vec![9]);
}

#[test]
fn constructor_checks_the_circuit_against_the_wires() {
    let a = alu_sim();
    let rebuilt = PipeSim::new(a.circuit, a.wires, a.stage_of, a.defaults, a.pc_signal, a.term_signal);
    assert!(rebuilt.is_some());
    let a = alu_sim();
    assert!(PipeSim::new(a.circuit, a.wires, a.stage_of, a.defaults, 99, a.term_signal).is_none());
    let a = alu_sim();
    let short = wires(2, 1, 6, vec![0, 12, 0], 1);
    assert!(PipeSim::new(a.circuit, short, a.stage_of, a.defaults, a.pc_signal, a.term_signal).is_none());
}

#[test]
fn duplicate_definitions_are_detected() {
    assert!(distinct_names(&vec![signal(0, lit(1), vec![]), signal(1, lit(2), vec![])]));
    assert!(!distinct_names(&vec![signal(0, lit(1), vec![]), signal(0, lit(2), vec![])]));
}
