//! Propagating twice within one cycle: in a compiled circuit every value a
//! node reads is produced earlier in the order, so a second propagation
//! recomputes the same intermediates and unit outputs.
use vstd::prelude::*;

use crate::compile::{compiled_action, compiled_from, definitions_fit, required_edge, Layout};
use crate::framework::{lemma_scatter_len, scatter, NodeAction, PropCircuit, UnitDef};
use crate::hcl::{expr_reads, lemma_write_all_shape, source_reads, Case, Expr, LValue, SignalDef, SignalDest, SignalSource, Target, WiresView};

verus! {

/// A place that nodes read or write during a propagation.
#[derive(Debug, Clone, Copy, PartialEq, Eq, Structural)]
pub enum Place {
    In(usize),
    Out(usize),
    Inter(usize),
}

pub open spec fn at(w: WiresView, p: Place) -> u64 {
    match p {
        Place::In(i) => w.unit_in[i as int],
        Place::Out(i) => w.unit_out[i as int],
        Place::Inter(i) => w.inter[i as int],
    }
}

/// The place a read names; none for a previous-cycle stage field.
pub open spec fn place_of(lv: LValue) -> Option<Place> {
    match lv {
        LValue::Inter(i) => Some(Place::Inter(i)),
        LValue::UnitOut(q) => Some(Place::Out(q)),
        LValue::Prev(_) => None,
    }
}

/// Whether one of `dests` is unit input `p`.
pub open spec fn drives(dests: Seq<SignalDest>, p: usize) -> bool {
    exists|k: int| 0 <= k < dests.len() && (#[trigger] dests[k]).dest == Target::UnitIn(p)
}

impl PropCircuit {
    pub open spec fn node_reads(&self, v: int, p: Place) -> bool {
        match self.actions@[v] {
            NodeAction::Unit(u) => exists|i: int| 0 <= i < self.units@[u as int].inputs@.len() && p == Place::In(#[trigger] self.units@[u as int].inputs@[i]),
            NodeAction::Signal(d) => exists|lv: LValue| #[trigger] source_reads(self.signals@[d as int].source, lv) && place_of(lv) == Some(p),
            NodeAction::Port => false,
        }
    }

    pub open spec fn node_writes(&self, v: int, p: Place) -> bool {
        match self.actions@[v] {
            NodeAction::Unit(u) => exists|i: int| 0 <= i < self.units@[u as int].outputs@.len() && p == Place::Out(#[trigger] self.units@[u as int].outputs@[i]),
            NodeAction::Signal(d) => match p {
                Place::Inter(i) => i == self.signals@[d as int].name,
                Place::In(i) => drives(self.signals@[d as int].destinations@, i),
                Place::Out(_) => false,
            },
            NodeAction::Port => false,
        }
    }
}

/// Ports not listed among the first `k` keep their value.
proof fn lemma_scatter_frame(out: Seq<u64>, ports: Seq<usize>, outs: Seq<u64>, k: int, q: int)
    requires
        0 <= k <= ports.len(),
        0 <= q < out.len(),
        forall|i: int| 0 <= i < ports.len() ==> #[trigger] ports[i] < out.len(),
        forall|i: int| 0 <= i < k ==> ports[i] != q,
    ensures
        scatter(out, ports, outs, k)[q] == out[q],
    decreases k,
{
    if k > 0 {
        lemma_scatter_frame(out, ports, outs, k - 1, q);
        lemma_scatter_len(out, ports, outs, k - 1);
    }
}

/// A listed port's value does not depend on what the ports held before.
proof fn lemma_scatter_listed(a: Seq<u64>, b: Seq<u64>, ports: Seq<usize>, outs: Seq<u64>, k: int, q: int)
    requires
        0 <= k <= ports.len(),
        a.len() == b.len(),
        0 <= q < a.len(),
        forall|i: int| 0 <= i < ports.len() ==> #[trigger] ports[i] < a.len(),
        exists|i: int| 0 <= i < k && ports[i] == q,
    ensures
        scatter(a, ports, outs, k)[q] == scatter(b, ports, outs, k)[q],
    decreases k,
{
    if k > 0 {
        lemma_scatter_len(a, ports, outs, k - 1);
        lemma_scatter_len(b, ports, outs, k - 1);
        if ports[k - 1] as int != q {
            let i = choose|i: int| 0 <= i < k && ports[i] == q;
            lemma_scatter_listed(a, b, ports, outs, k - 1, q);
        }
    }
}

/// Whether two wire sets agree on what `lv` reads.
pub open spec fn agree_on(a: WiresView, b: WiresView, lv: LValue) -> bool {
    a.read(lv) == b.read(lv)
}

/// Equal reads give equal values.
proof fn lemma_eval_congruent(a: WiresView, b: WiresView, e: Expr)
    requires
        forall|lv: LValue| #[trigger] expr_reads(e).contains(lv) ==> agree_on(a, b, lv),
    ensures
        a.eval(e) == b.eval(e),
    decreases e,
{
    match e {
        Expr::Lit(_) => {},
        Expr::Read(lv) => {
            assert(expr_reads(e)[0] == lv);
            assert(expr_reads(e).contains(lv));
        },
        Expr::Not(x) => lemma_eval_congruent(a, b, *x),
        Expr::Eq(x, y) => {
            assert forall|lv: LValue| #[trigger] expr_reads(*x).contains(lv) implies agree_on(a, b, lv) by {
                let i = choose|i: int| 0 <= i < expr_reads(*x).len() && expr_reads(*x)[i] == lv;
                assert(expr_reads(e) == expr_reads(*x) + expr_reads(*y));
                assert(expr_reads(e)[i] == lv);
                assert(expr_reads(e).contains(lv));
            }
            assert forall|lv: LValue| #[trigger] expr_reads(*y).contains(lv) implies agree_on(a, b, lv) by {
                let i = choose|i: int| 0 <= i < expr_reads(*y).len() && expr_reads(*y)[i] == lv;
                assert(expr_reads(e) == expr_reads(*x) + expr_reads(*y));
                assert(expr_reads(e)[expr_reads(*x).len() + i] == lv);
                assert(expr_reads(e).contains(lv));
            }
            lemma_eval_congruent(a, b, *x);
            lemma_eval_congruent(a, b, *y);
        },
        Expr::NotEq(x, y) => {
            assert forall|lv: LValue| #[trigger] expr_reads(*x).contains(lv) implies agree_on(a, b, lv) by {
                let i = choose|i: int| 0 <= i < expr_reads(*x).len() && expr_reads(*x)[i] == lv;
                assert(expr_reads(e) == expr_reads(*x) + expr_reads(*y));
                assert(expr_reads(e)[i] == lv);
                assert(expr_reads(e).contains(lv));
            }
            assert forall|lv: LValue| #[trigger] expr_reads(*y).contains(lv) implies agree_on(a, b, lv) by {
                let i = choose|i: int| 0 <= i < expr_reads(*y).len() && expr_reads(*y)[i] == lv;
                assert(expr_reads(e) == expr_reads(*x) + expr_reads(*y));
                assert(expr_reads(e)[expr_reads(*x).len() + i] == lv);
                assert(expr_reads(e).contains(lv));
            }
            lemma_eval_congruent(a, b, *x);
            lemma_eval_congruent(a, b, *y);
        },
        Expr::And(x, y) => {
            assert forall|lv: LValue| #[trigger] expr_reads(*x).contains(lv) implies agree_on(a, b, lv) by {
                let i = choose|i: int| 0 <= i < expr_reads(*x).len() && expr_reads(*x)[i] == lv;
                assert(expr_reads(e) == expr_reads(*x) + expr_reads(*y));
                assert(expr_reads(e)[i] == lv);
                assert(expr_reads(e).contains(lv));
            }
            assert forall|lv: LValue| #[trigger] expr_reads(*y).contains(lv) implies agree_on(a, b, lv) by {
                let i = choose|i: int| 0 <= i < expr_reads(*y).len() && expr_reads(*y)[i] == lv;
                assert(expr_reads(e) == expr_reads(*x) + expr_reads(*y));
                assert(expr_reads(e)[expr_reads(*x).len() + i] == lv);
                assert(expr_reads(e).contains(lv));
            }
            lemma_eval_congruent(a, b, *x);
            lemma_eval_congruent(a, b, *y);
        },
        Expr::Or(x, y) => {
            assert forall|lv: LValue| #[trigger] expr_reads(*x).contains(lv) implies agree_on(a, b, lv) by {
                let i = choose|i: int| 0 <= i < expr_reads(*x).len() && expr_reads(*x)[i] == lv;
                assert(expr_reads(e) == expr_reads(*x) + expr_reads(*y));
                assert(expr_reads(e)[i] == lv);
                assert(expr_reads(e).contains(lv));
            }
            assert forall|lv: LValue| #[trigger] expr_reads(*y).contains(lv) implies agree_on(a, b, lv) by {
                let i = choose|i: int| 0 <= i < expr_reads(*y).len() && expr_reads(*y)[i] == lv;
                assert(expr_reads(e) == expr_reads(*x) + expr_reads(*y));
                assert(expr_reads(e)[expr_reads(*x).len() + i] == lv);
                assert(expr_reads(e).contains(lv));
            }
            lemma_eval_congruent(a, b, *x);
            lemma_eval_congruent(a, b, *y);
        },
        Expr::In(x, set) => {
            assert(expr_reads(e) == expr_reads(*x) + set@);
            assert forall|lv: LValue| #[trigger] expr_reads(*x).contains(lv) implies agree_on(a, b, lv) by {
                let i = choose|i: int| 0 <= i < expr_reads(*x).len() && expr_reads(*x)[i] == lv;
                assert(expr_reads(e)[i] == lv);
                assert(expr_reads(e).contains(lv));
            }
            lemma_eval_congruent(a, b, *x);
            assert forall|k: int| 0 <= k < set@.len() implies a.read(set@[k]) == b.read(set@[k]) by {
                assert(expr_reads(e)[expr_reads(*x).len() + k] == set@[k]);
                assert(expr_reads(e).contains(set@[k]));
            }
            if exists|k: int| 0 <= k < set@.len() && a.read(set@[k]) == a.eval(*x) {
                let k = choose|k: int| 0 <= k < set@.len() && a.read(set@[k]) == a.eval(*x);
                assert(b.read(set@[k]) == b.eval(*x));
            }
            if exists|k: int| 0 <= k < set@.len() && b.read(set@[k]) == b.eval(*x) {
                let k = choose|k: int| 0 <= k < set@.len() && b.read(set@[k]) == b.eval(*x);
                assert(a.read(set@[k]) == a.eval(*x));
            }
        },
    }
}

/// Whether two wire sets agree on everything a source reads.
pub open spec fn agree_on_source(a: WiresView, b: WiresView, src: SignalSource) -> bool {
    forall|lv: LValue| #[trigger] source_reads(src, lv) ==> agree_on(a, b, lv)
}

proof fn lemma_first_match_congruent(a: WiresView, b: WiresView, cases: Seq<Case>, k: int)
    requires
        forall|j: int, lv: LValue| 0 <= j < cases.len() && (#[trigger] expr_reads(cases[j].condition).contains(lv) || expr_reads(cases[j].value).contains(lv)) ==> agree_on(a, b, lv),
    ensures
        a.first_match(cases, k) == b.first_match(cases, k),
    decreases cases.len() - k,
{
    if 0 <= k < cases.len() {
        assert forall|lv: LValue| #[trigger] expr_reads(cases[k].condition).contains(lv) implies agree_on(a, b, lv) by {}
        lemma_eval_congruent(a, b, cases[k].condition);
        lemma_first_match_congruent(a, b, cases, k + 1);
    }
}

/// Equal reads give the same assignment and the same tunnel.
proof fn lemma_source_congruent(a: WiresView, b: WiresView, src: SignalSource)
    requires
        agree_on_source(a, b, src),
    ensures
        a.source_result(src) == b.source_result(src),
{
    match src {
        SignalSource::Expr(_, e) => {
            assert forall|lv: LValue| #[trigger] expr_reads(e).contains(lv) implies agree_on(a, b, lv) by {
                assert(source_reads(src, lv));
            }
            lemma_eval_congruent(a, b, e);
        },
        SignalSource::Switch(cases) => {
            assert forall|j: int, lv: LValue| 0 <= j < cases@.len() && (#[trigger] expr_reads(cases@[j].condition).contains(lv) || expr_reads(cases@[j].value).contains(lv)) implies agree_on(a, b, lv) by {
                assert(source_reads(src, lv));
            }
            lemma_first_match_congruent(a, b, cases@, 0);
            match a.first_match(cases@, 0) {
                Some(k) => {
                    lemma_first_match_in_range(a, cases@, 0);
                    assert forall|lv: LValue| #[trigger] expr_reads(cases@[k].value).contains(lv) implies agree_on(a, b, lv) by {
                        let c = cases@[k].condition;
                        assert(expr_reads(cases@[k].condition).contains(lv) || expr_reads(cases@[k].value).contains(lv));
                        assert(source_reads(src, lv));
                    }
                    lemma_eval_congruent(a, b, cases@[k].value);
                },
                None => {},
            }
        },
    }
}

proof fn lemma_first_match_in_range(a: WiresView, cases: Seq<Case>, k: int)
    requires
        0 <= k,
    ensures
        a.first_match(cases, k) matches Some(j) ==> k <= j < cases.len(),
    decreases cases.len() - k,
{
    if k < cases.len() {
        lemma_first_match_in_range(a, cases, k + 1);
    }
}

/// Unit inputs that no destination among the first `k` names keep their value.
proof fn lemma_write_all_in_frame(w: WiresView, dests: Seq<SignalDest>, v: u64, k: int, i: usize)
    requires
        0 <= k <= dests.len(),
        i < w.unit_in.len(),
        forall|j: int| 0 <= j < dests.len() ==> w.writable(#[trigger] dests[j].dest),
        forall|j: int| 0 <= j < k ==> (#[trigger] dests[j]).dest != Target::UnitIn(i),
    ensures
        w.write_all(dests, v, k).unit_in[i as int] == w.unit_in[i as int],
    decreases k,
{
    if k > 0 {
        lemma_write_all_in_frame(w, dests, v, k - 1, i);
        lemma_write_all_shape(w, dests, v, k - 1);
        assert(w.write_all(dests, v, k - 1).writable(dests[k - 1].dest));
    }
}

/// A unit input that one of the first `k` destinations names holds `v`.
proof fn lemma_write_all_in_set(w: WiresView, dests: Seq<SignalDest>, v: u64, k: int, i: usize)
    requires
        0 <= k <= dests.len(),
        i < w.unit_in.len(),
        forall|j: int| 0 <= j < dests.len() ==> w.writable(#[trigger] dests[j].dest),
        exists|j: int| 0 <= j < k && (#[trigger] dests[j]).dest == Target::UnitIn(i),
    ensures
        w.write_all(dests, v, k).unit_in[i as int] == v,
    decreases k,
{
    lemma_write_all_shape(w, dests, v, k - 1);
    assert(w.write_all(dests, v, k - 1).writable(dests[k - 1].dest));
    if dests[k - 1].dest != Target::UnitIn(i) {
        lemma_write_all_in_set(w, dests, v, k - 1, i);
    }
}

/// Whether a place exists in `w`.
pub open spec fn in_range(w: WiresView, p: Place) -> bool {
    match p {
        Place::In(i) => i < w.unit_in.len(),
        Place::Out(i) => i < w.unit_out.len(),
        Place::Inter(i) => i < w.inter.len(),
    }
}

/// A node changes only the places it writes, and never the latched stages.
proof fn lemma_node_frame(c: PropCircuit, w: WiresView, v: int, p: Place)
    requires
        c.wf(w),
        0 <= v < c.actions@.len(),
        in_range(w, p),
        !c.node_writes(v, p),
    ensures
        at(c.run_node(w, v).0, p) == at(w, p),
        c.run_node(w, v).0.cur == w.cur,
        c.run_node(w, v).0.regs == w.regs,
        c.run_node(w, v).0.mem == w.mem,
{
    match c.actions@[v] {
        NodeAction::Unit(u) => {
            let un = c.units@[u as int];
            assert(c.unit_ok(w, un));
            if let Place::Out(q) = p {
                lemma_scatter_frame(w.unit_out, un.outputs@, crate::framework::device_out(un.device, crate::framework::unit_inputs(w, un), w.regs, w.mem), un.outputs@.len() as int, q as int);
            }
        },
        NodeAction::Signal(d) => {
            let def = c.signals@[d as int];
            assert(w.def_ok(def));
            crate::hcl::lemma_update_shape(w, def);
            let (assigned, _) = w.source_result(def.source);
            let w1 = match assigned {
                Some(x) => WiresView { inter: w.inter.update(def.name as int, x), ..w },
                None => WiresView { inter: w.inter.update(def.name as int, def.default), ..w },
            };
            assert forall|j: int| 0 <= j < def.destinations@.len() implies w1.writable(#[trigger] def.destinations@[j].dest) by {
                assert(w.writable(def.destinations@[j].dest));
            }
            lemma_write_all_shape(w1, def.destinations@, w1.inter[def.name as int], def.destinations@.len() as int);
            if let Place::In(i) = p {
                assert forall|j: int| 0 <= j < def.destinations@.len() implies (#[trigger] def.destinations@[j]).dest != Target::UnitIn(i) by {}
                lemma_write_all_in_frame(w1, def.destinations@, w1.inter[def.name as int], def.destinations@.len() as int, i);
            }
        },
        NodeAction::Port => {},
    }
}

/// Whether two wire sets have the same places and the same latched stages.
pub open spec fn same_frame(a: WiresView, b: WiresView) -> bool {
    &&& crate::framework::same_shape(a, b)
    &&& a.cur == b.cur
    &&& a.regs == b.regs
    &&& a.mem == b.mem
}

/// A node whose reads agree on two wire sets writes the same values.
proof fn lemma_node_determined(c: PropCircuit, a: WiresView, b: WiresView, v: int, p: Place)
    requires
        c.wf(a),
        same_frame(a, b),
        0 <= v < c.actions@.len(),
        forall|r: Place| in_range(a, r) && #[trigger] c.node_reads(v, r) ==> at(a, r) == at(b, r),
        in_range(a, p),
        c.node_writes(v, p),
    ensures
        at(c.run_node(a, v).0, p) == at(c.run_node(b, v).0, p),
{
    match c.actions@[v] {
        NodeAction::Unit(u) => {
            let un = c.units@[u as int];
            assert(c.unit_ok(a, un));
            let ia = crate::framework::unit_inputs(a, un);
            let ib = crate::framework::unit_inputs(b, un);
            assert(ia =~= ib) by {
                assert forall|i: int| 0 <= i < un.inputs@.len() implies ia[i] == ib[i] by {
                    assert(c.node_reads(v, Place::In(un.inputs@[i])));
                }
            }
            let outs = crate::framework::device_out(un.device, ia, a.regs, a.mem);
            if let Place::Out(q) = p {
                let i = choose|i: int| 0 <= i < un.outputs@.len() && p == Place::Out(#[trigger] un.outputs@[i]);
                lemma_scatter_listed(a.unit_out, b.unit_out, un.outputs@, outs, un.outputs@.len() as int, q as int);
            }
        },
        NodeAction::Signal(d) => {
            let def = c.signals@[d as int];
            assert(a.def_ok(def));
            assert forall|lv: LValue| #[trigger] source_reads(def.source, lv) implies agree_on(a, b, lv) by {
                match lv {
                    LValue::Inter(i) => {
                        assert(c.node_reads(v, Place::Inter(i)));
                        assert(a.readable(lv)) by {
                            lemma_source_reads_readable(a, def, lv);
                        }
                    },
                    LValue::UnitOut(q) => {
                        assert(c.node_reads(v, Place::Out(q)));
                        assert(a.readable(lv)) by {
                            lemma_source_reads_readable(a, def, lv);
                        }
                    },
                    LValue::Prev(_) => {},
                }
            }
            lemma_source_congruent(a, b, def.source);
            crate::hcl::lemma_def_ok_shape(a, b, def);
            let (assigned, _) = a.source_result(def.source);
            let a1 = match assigned {
                Some(x) => WiresView { inter: a.inter.update(def.name as int, x), ..a },
                None => WiresView { inter: a.inter.update(def.name as int, def.default), ..a },
            };
            let b1 = match assigned {
                Some(x) => WiresView { inter: b.inter.update(def.name as int, x), ..b },
                None => WiresView { inter: b.inter.update(def.name as int, def.default), ..b },
            };
            assert(a1.inter[def.name as int] == b1.inter[def.name as int]);
            let val = a1.inter[def.name as int];
            assert forall|j: int| 0 <= j < def.destinations@.len() implies a1.writable(#[trigger] def.destinations@[j].dest) && b1.writable(def.destinations@[j].dest) by {
                assert(a.writable(def.destinations@[j].dest));
            }
            lemma_write_all_shape(a1, def.destinations@, val, def.destinations@.len() as int);
            lemma_write_all_shape(b1, def.destinations@, val, def.destinations@.len() as int);
            if let Place::In(i) = p {
                let j = choose|j: int| 0 <= j < def.destinations@.len() && (#[trigger] def.destinations@[j]).dest == Target::UnitIn(i);
                lemma_write_all_in_set(a1, def.destinations@, val, def.destinations@.len() as int, i);
                lemma_write_all_in_set(b1, def.destinations@, val, def.destinations@.len() as int, i);
            }
        },
        NodeAction::Port => {},
    }
}

/// Whatever a well-formed definition reads exists.
proof fn lemma_source_reads_readable(w: WiresView, d: SignalDef, lv: LValue)
    requires
        w.def_ok(d),
        source_reads(d.source, lv),
    ensures
        w.readable(lv),
{
    match d.source {
        SignalSource::Expr(_, e) => lemma_expr_reads_readable(w, e, lv),
        SignalSource::Switch(cases) => {
            let k = choose|k: int| 0 <= k < cases@.len() && (expr_reads(#[trigger] cases@[k].condition).contains(lv) || expr_reads(cases@[k].value).contains(lv));
            assert(w.expr_ok(cases@[k].condition) && w.expr_ok(cases@[k].value));
            if expr_reads(cases@[k].condition).contains(lv) {
                lemma_expr_reads_readable(w, cases@[k].condition, lv);
            } else {
                lemma_expr_reads_readable(w, cases@[k].value, lv);
            }
        },
    }
}

proof fn lemma_expr_reads_readable(w: WiresView, e: Expr, lv: LValue)
    requires
        w.expr_ok(e),
        expr_reads(e).contains(lv),
    ensures
        w.readable(lv),
    decreases e,
{
    match e {
        Expr::Lit(_) => {},
        Expr::Read(x) => {
            assert(expr_reads(e)[0] == x);
        },
        Expr::Not(x) => lemma_expr_reads_readable(w, *x, lv),
        Expr::Eq(x, y) => {
            assert(expr_reads(e) == expr_reads(*x) + expr_reads(*y));
            let i = choose|i: int| 0 <= i < expr_reads(e).len() && expr_reads(e)[i] == lv;
            if i < expr_reads(*x).len() {
                assert(expr_reads(*x)[i] == lv);
                lemma_expr_reads_readable(w, *x, lv);
            } else {
                assert(expr_reads(*y)[i - expr_reads(*x).len()] == lv);
                lemma_expr_reads_readable(w, *y, lv);
            }
        },
        Expr::NotEq(x, y) => {
            assert(expr_reads(e) == expr_reads(*x) + expr_reads(*y));
            let i = choose|i: int| 0 <= i < expr_reads(e).len() && expr_reads(e)[i] == lv;
            if i < expr_reads(*x).len() {
                assert(expr_reads(*x)[i] == lv);
                lemma_expr_reads_readable(w, *x, lv);
            } else {
                assert(expr_reads(*y)[i - expr_reads(*x).len()] == lv);
                lemma_expr_reads_readable(w, *y, lv);
            }
        },
        Expr::And(x, y) => {
            assert(expr_reads(e) == expr_reads(*x) + expr_reads(*y));
            let i = choose|i: int| 0 <= i < expr_reads(e).len() && expr_reads(e)[i] == lv;
            if i < expr_reads(*x).len() {
                assert(expr_reads(*x)[i] == lv);
                lemma_expr_reads_readable(w, *x, lv);
            } else {
                assert(expr_reads(*y)[i - expr_reads(*x).len()] == lv);
                lemma_expr_reads_readable(w, *y, lv);
            }
        },
        Expr::Or(x, y) => {
            assert(expr_reads(e) == expr_reads(*x) + expr_reads(*y));
            let i = choose|i: int| 0 <= i < expr_reads(e).len() && expr_reads(e)[i] == lv;
            if i < expr_reads(*x).len() {
                assert(expr_reads(*x)[i] == lv);
                lemma_expr_reads_readable(w, *x, lv);
            } else {
                assert(expr_reads(*y)[i - expr_reads(*x).len()] == lv);
                lemma_expr_reads_readable(w, *y, lv);
            }
        },
        Expr::In(x, set) => {
            let i = choose|i: int| 0 <= i < expr_reads(e).len() && expr_reads(e)[i] == lv;
            if i < expr_reads(*x).len() {
                assert(expr_reads(*x)[i] == lv);
                lemma_expr_reads_readable(w, *x, lv);
            } else {
                assert(set@[i - expr_reads(*x).len()] == lv);
            }
        },
    }
}

/// Well-formedness depends only on the number of places.
proof fn lemma_wf_frame(c: PropCircuit, a: WiresView, b: WiresView)
    requires
        c.wf(a),
        crate::framework::same_shape(a, b),
    ensures
        c.wf(b),
{
    assert forall|d: int| 0 <= d < c.signals@.len() implies b.def_ok(#[trigger] c.signals@[d]) by {
        crate::hcl::lemma_def_ok_shape(a, b, c.signals@[d]);
    }
    assert forall|u: int| 0 <= u < c.units@.len() implies c.unit_ok(b, #[trigger] c.units@[u]) by {
        assert(c.unit_ok(a, c.units@[u]));
    }
}

/// A node keeps the number of places and the latched stages.
proof fn lemma_node_shape(c: PropCircuit, w: WiresView, v: int)
    requires
        c.wf(w),
        0 <= v < c.actions@.len(),
    ensures
        same_frame(c.run_node(w, v).0, w),
{
    match c.actions@[v] {
        NodeAction::Unit(u) => {
            let un = c.units@[u as int];
            assert(c.unit_ok(w, un));
            lemma_scatter_len(w.unit_out, un.outputs@, crate::framework::device_out(un.device, crate::framework::unit_inputs(w, un), w.regs, w.mem), un.outputs@.len() as int);
        },
        NodeAction::Signal(d) => {
            assert(w.def_ok(c.signals@[d as int]));
            crate::hcl::lemma_update_shape(w, c.signals@[d as int]);
        },
        NodeAction::Port => {},
    }
}

/// The node at position `j` of the order.
pub open spec fn node_at(c: PropCircuit, j: int) -> int {
    c.order.order@[j] as int
}

/// Whether a node before position `k` writes `p`.
pub open spec fn written_before(c: PropCircuit, p: Place, k: int) -> bool {
    exists|j: int| 0 <= j < k && #[trigger] c.node_writes(node_at(c, j), p)
}

/// Whether every node that reads a place comes after every node that writes
/// it, and each intermediate has at most one writer.
pub open spec fn reads_follow_writes(c: PropCircuit) -> bool {
    let n = c.order.order@.len() as int;
    &&& forall|j: int, k: int, p: Place| 0 <= j < n && 0 <= k < n && #[trigger] c.node_writes(node_at(c, j), p) && #[trigger] c.node_reads(node_at(c, k), p) ==> j < k
    &&& forall|j: int, k: int, i: usize| 0 <= j < n && 0 <= k < n && #[trigger] c.node_writes(node_at(c, j), Place::Inter(i)) && #[trigger] c.node_writes(node_at(c, k), Place::Inter(i)) ==> j == k
}

/// The walk keeps the number of places and the latched stages, and after
/// it, places that no node from position `k` on writes hold what they held
/// at position `k`.
proof fn lemma_walk_frame(c: PropCircuit, w: WiresView, k: int, m: int, p: Place)
    requires
        c.wf(w),
        c.order.wf(),
        c.actions@.len() == c.order.nodes@.len(),
        0 <= k <= m <= c.order.order@.len(),
        in_range(w, p),
        forall|j: int| k <= j < m ==> !(#[trigger] c.node_writes(node_at(c, j), p)),
    ensures
        same_frame(c.walk(w, m).0, w),
        at(c.walk(w, m).0, p) == at(c.walk(w, k).0, p),
    decreases m,
{
    if m > 0 {
        if k < m {
            lemma_walk_frame(c, w, k, m - 1, p);
        }
        let wm = c.walk(w, m - 1).0;
        lemma_walk_frame(c, w, m - 1, m - 1, p);
        lemma_wf_frame(c, w, wm);
        let v = node_at(c, m - 1);
        assert(c.order.order@[m - 1] < c.order.nodes@.len());
        lemma_node_shape(c, wm, v);
        if k < m {
            lemma_node_frame(c, wm, v, p);
        }
    }
}

/// Replaying the walk from where the first one ended: places written before
/// position `k` hold the same values in both walks, the others still hold
/// what each walk started from.
proof fn lemma_replay(c: PropCircuit, w0: WiresView, k: int)
    requires
        c.wf(w0),
        c.order.wf(),
        c.actions@.len() == c.order.nodes@.len(),
        reads_follow_writes(c),
        0 <= k <= c.order.order@.len(),
    ensures
        ({
            let n = c.order.order@.len() as int;
            let w1 = c.walk(w0, n).0;
            forall|p: Place| #[trigger] in_range(w0, p) ==> {
                &&& written_before(c, p, k) ==> at(c.walk(w1, k).0, p) == at(c.walk(w0, k).0, p)
                &&& !written_before(c, p, k) ==> at(c.walk(w0, k).0, p) == at(w0, p) && at(c.walk(w1, k).0, p) == at(w1, p)
            }
        }),
    decreases k,
{
    let n = c.order.order@.len() as int;
    let w1 = c.walk(w0, n).0;
    if k > 0 {
        lemma_replay(c, w0, k - 1);
        let v = node_at(c, k - 1);
        assert(c.order.order@[k - 1] < c.order.nodes@.len());
        let a = c.walk(w0, k - 1).0;
        let b = c.walk(w1, k - 1).0;
        lemma_walk_frame_shape(c, w0, n);
        lemma_wf_frame(c, w0, w1);
        lemma_walk_frame_shape(c, w0, k - 1);
        lemma_walk_frame_shape(c, w1, k - 1);
        lemma_wf_frame(c, w0, a);
        lemma_wf_frame(c, w1, b);
        assert forall|r: Place| in_range(a, r) && #[trigger] c.node_reads(v, r) implies at(a, r) == at(b, r) by {
            if !written_before(c, r, k - 1) {
                assert forall|j: int| 0 <= j < n implies !(#[trigger] c.node_writes(node_at(c, j), r)) by {
                    if c.node_writes(node_at(c, j), r) {
                        assert(c.node_reads(node_at(c, k - 1), r));
                        if j < k - 1 {
                            assert(written_before(c, r, k - 1));
                        }
                    }
                }
                lemma_walk_frame(c, w0, 0, n, r);
                assert(in_range(w0, r));
            } else {
                assert(in_range(w0, r));
            }
        }
        assert forall|p: Place| #[trigger] in_range(w0, p) implies {
            &&& written_before(c, p, k) ==> at(c.walk(w1, k).0, p) == at(c.walk(w0, k).0, p)
            &&& !written_before(c, p, k) ==> at(c.walk(w0, k).0, p) == at(w0, p) && at(c.walk(w1, k).0, p) == at(w1, p)
        } by {
            assert(in_range(a, p));
            if c.node_writes(v, p) {
                lemma_node_determined(c, a, b, v, p);
                assert(written_before(c, p, k));
            } else {
                lemma_node_frame(c, a, v, p);
                lemma_node_frame(c, b, v, p);
                if written_before(c, p, k) {
                    let j = choose|j: int| 0 <= j < k && #[trigger] c.node_writes(node_at(c, j), p);
                    assert(written_before(c, p, k - 1));
                }
            }
        }
    }
}

/// The walk keeps the number of places and the latched stages.
proof fn lemma_walk_frame_shape(c: PropCircuit, w: WiresView, m: int)
    requires
        c.wf(w),
        c.order.wf(),
        c.actions@.len() == c.order.nodes@.len(),
        0 <= m <= c.order.order@.len(),
    ensures
        same_frame(c.walk(w, m).0, w),
    decreases m,
{
    if m > 0 {
        lemma_walk_frame_shape(c, w, m - 1);
        let wm = c.walk(w, m - 1).0;
        lemma_wf_frame(c, w, wm);
        assert(c.order.order@[m - 1] < c.order.nodes@.len());
        lemma_node_shape(c, wm, node_at(c, m - 1));
    }
}

/// Propagating twice without latching a cycle in between computes the same
/// intermediates and unit outputs the second time, when every node that
/// reads a place comes after the nodes that write it.
pub proof fn lemma_propagate_twice(c: PropCircuit, w0: WiresView)
    requires
        c.wf(w0),
        c.order.wf(),
        c.actions@.len() == c.order.nodes@.len(),
        reads_follow_writes(c),
        w0.inter.len() <= usize::MAX,
        w0.unit_out.len() <= usize::MAX,
    ensures
        c.propagate(c.propagate(w0).0).0.inter == c.propagate(w0).0.inter,
        c.propagate(c.propagate(w0).0).0.unit_out == c.propagate(w0).0.unit_out,
{
    let n = c.order.order@.len() as int;
    let w1 = c.walk(w0, n).0;
    let w2 = c.walk(w1, n).0;
    lemma_replay(c, w0, n);
    lemma_walk_frame_shape(c, w0, n);
    lemma_wf_frame(c, w0, w1);
    lemma_walk_frame_shape(c, w1, n);
    assert forall|i: int| 0 <= i < w1.inter.len() implies w2.inter[i] == w1.inter[i] by {
        assert(in_range(w0, Place::Inter(i as usize)));
    }
    assert forall|i: int| 0 <= i < w1.unit_out.len() implies w2.unit_out[i] == w1.unit_out[i] by {
        assert(in_range(w0, Place::Out(i as usize)));
    }
    assert(w2.inter =~= w1.inter);
    assert(w2.unit_out =~= w1.unit_out);
}

/// The node that a signal definition runs at, in a compiled circuit.
proof fn lemma_signal_node(l: Layout, units: Seq<UnitDef>, signals: Seq<SignalDef>, c: PropCircuit, v: int)
    requires
        compiled_from(l, units, signals, c),
        0 <= v < l.n_nodes(),
        c.actions@[v] is Signal,
    ensures
        0 <= c.actions@[v]->Signal_0 < signals.len(),
        l.inter_node(signals[c.actions@[v]->Signal_0 as int].name as int) == v,
        v >= l.n_units,
{
    assert(c.actions@[v] == compiled_action(l, signals, v));
}

/// In a compiled circuit, readers come after writers and each intermediate
/// has one writer.
pub proof fn lemma_compiled_ordered(l: Layout, units: Seq<UnitDef>, signals: Seq<SignalDef>, c: PropCircuit)
    requires
        definitions_fit(l, units, signals),
        compiled_from(l, units, signals, c),
    ensures
        reads_follow_writes(c),
{
    let n = c.order.order@.len() as int;
    assert(n == l.n_nodes());
    assert forall|j: int, k: int, p: Place| 0 <= j < n && 0 <= k < n && #[trigger] c.node_writes(node_at(c, j), p) && #[trigger] c.node_reads(node_at(c, k), p) implies j < k by {
        let vj = node_at(c, j);
        let vk = node_at(c, k);
        assert(0 <= vj < n && 0 <= vk < n);
        assert(c.order.rank@[vj] == j && c.order.rank@[vk] == k);
        assert(c.actions@[vj] == compiled_action(l, signals, vj));
        assert(c.actions@[vk] == compiled_action(l, signals, vk));
        match p {
            Place::Inter(i) => {
                lemma_signal_node(l, units, signals, c, vj);
                lemma_signal_node(l, units, signals, c, vk);
                let d2 = c.actions@[vk]->Signal_0;
                let lv = choose|lv: LValue| #[trigger] source_reads(signals[d2 as int].source, lv) && place_of(lv) == Some(p);
                assert(required_edge(l, units, signals, vj, vk));
            },
            Place::Out(q) => {
                let u = c.actions@[vj]->Unit_0;
                let ui = choose|i: int| 0 <= i < units[u as int].outputs@.len() && p == Place::Out(#[trigger] units[u as int].outputs@[i]);
                assert(required_edge(l, units, signals, vj, l.out_node(q as int)));
                lemma_signal_node(l, units, signals, c, vk);
                let d2 = c.actions@[vk]->Signal_0;
                let lv = choose|lv: LValue| #[trigger] source_reads(signals[d2 as int].source, lv) && place_of(lv) == Some(p);
                assert(required_edge(l, units, signals, l.out_node(q as int), vk));
            },
            Place::In(q) => {
                lemma_signal_node(l, units, signals, c, vj);
                let d1 = c.actions@[vj]->Signal_0;
                let kk = choose|kk: int| 0 <= kk < signals[d1 as int].destinations@.len() && (#[trigger] signals[d1 as int].destinations@[kk]).dest == Target::UnitIn(q);
                assert(required_edge(l, units, signals, vj, l.in_node(q as int)));
                let u = c.actions@[vk]->Unit_0;
                let ui = choose|i: int| 0 <= i < units[u as int].inputs@.len() && p == Place::In(#[trigger] units[u as int].inputs@[i]);
                assert(required_edge(l, units, signals, l.in_node(q as int), vk));
            },
        }
    }
    assert forall|j: int, k: int, i: usize| 0 <= j < n && 0 <= k < n && #[trigger] c.node_writes(node_at(c, j), Place::Inter(i)) && #[trigger] c.node_writes(node_at(c, k), Place::Inter(i)) implies j == k by {
        let vj = node_at(c, j);
        let vk = node_at(c, k);
        assert(c.order.rank@[vj] == j && c.order.rank@[vk] == k);
        assert(c.actions@[vj] == compiled_action(l, signals, vj));
        assert(c.actions@[vk] == compiled_action(l, signals, vk));
        lemma_signal_node(l, units, signals, c, vj);
        lemma_signal_node(l, units, signals, c, vk);
    }
}

/// Idempotence of propagation: in a circuit compiled from its definitions,
/// propagating twice without latching a cycle in between yields the same
/// unit outputs and intermediates the second time.
pub proof fn lemma_propagation_idempotent(l: Layout, units: Seq<UnitDef>, signals: Seq<SignalDef>, c: PropCircuit, w: WiresView)
    requires
        definitions_fit(l, units, signals),
        compiled_from(l, units, signals, c),
        c.wf(w),
        w.inter.len() <= usize::MAX,
        w.unit_out.len() <= usize::MAX,
    ensures
        c.propagate(c.propagate(w).0).0.inter == c.propagate(w).0.inter,
        c.propagate(c.propagate(w).0).0.unit_out == c.propagate(w).0.unit_out,
{
    lemma_compiled_ordered(l, units, signals, c);
    lemma_propagate_twice(c, w);
}

} // verus!
