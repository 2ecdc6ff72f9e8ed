//! The signal language of a circuit: guarded expressions that define
//! intermediate signals and route them to unit inputs and next-cycle stage
//! fields, with names already resolved to the places they denote.
use vstd::prelude::*;
use vstd::string::StringExecFns;

verus! {

/// A stage title, `:====: title :====:`, under which the following signal
/// definitions are listed.
#[derive(Debug, Clone)]
pub struct StageDecl {
    pub name: String,
}

/// A resolved name in an expression: an intermediate signal, a unit output
/// port, or a stage field as it was latched at the previous cycle.
#[derive(Debug, Clone, Copy, PartialEq, Eq, Structural)]
pub enum LValue {
    Inter(usize),
    UnitOut(usize),
    Prev(usize),
}

/// A resolved destination: a unit input port, a next-cycle stage field, or
/// one of the two control inputs of a next-cycle stage.
#[derive(Debug, Clone, Copy, PartialEq, Eq, Structural)]
pub enum Target {
    UnitIn(usize),
    Stage(usize),
    Bubble(usize),
    Stall(usize),
}

/// An expression; values are 64-bit words, truth is "not zero".
#[derive(Debug)]
pub enum Expr {
    Lit(u64),
    Read(LValue),
    Not(Box<Expr>),
    Eq(Box<Expr>, Box<Expr>),
    NotEq(Box<Expr>, Box<Expr>),
    /// `v in {a, b, c}`: sugar for `v == a || v == b || v == c`.
    In(Box<Expr>, Vec<LValue>),
    And(Box<Expr>, Box<Expr>),
    Or(Box<Expr>, Box<Expr>),
}

/// Everything an expression may read or a signal may write during one
/// propagation.
#[derive(Debug, Clone)]
pub struct Wires {
    pub unit_in: Vec<u64>,
    pub unit_out: Vec<u64>,
    pub inter: Vec<u64>,
    /// Stage fields as latched at the end of the previous cycle.
    pub cur: Vec<u64>,
    /// Stage fields being filled for the next cycle.
    pub next: Vec<u64>,
    /// Per stage: the `bubble` control input of the next cycle.
    pub next_bubble: Vec<bool>,
    /// Per stage: the `stall` control input of the next cycle.
    pub next_stall: Vec<bool>,
    /// The register file, as latched at the end of the previous cycle.
    pub regs: Vec<u64>,
    /// The data memory, as latched at the end of the previous cycle.
    pub mem: Vec<u8>,
}

/// The contents of `Wires`.
pub struct WiresView {
    pub unit_in: Seq<u64>,
    pub unit_out: Seq<u64>,
    pub inter: Seq<u64>,
    pub cur: Seq<u64>,
    pub next: Seq<u64>,
    pub next_bubble: Seq<bool>,
    pub next_stall: Seq<bool>,
    pub regs: Seq<u64>,
    pub mem: Seq<u8>,
}

pub open spec fn b2w(b: bool) -> u64 {
    if b {
        1
    } else {
        0
    }
}

impl WiresView {
    /// Whether `lv` names an existing place.
    pub open spec fn readable(&self, lv: LValue) -> bool {
        match lv {
            LValue::Inter(i) => i < self.inter.len(),
            LValue::UnitOut(i) => i < self.unit_out.len(),
            LValue::Prev(i) => i < self.cur.len(),
        }
    }

    pub open spec fn read(&self, lv: LValue) -> u64 {
        match lv {
            LValue::Inter(i) => self.inter[i as int],
            LValue::UnitOut(i) => self.unit_out[i as int],
            LValue::Prev(i) => self.cur[i as int],
        }
    }

    /// Whether `t` names an existing place.
    pub open spec fn writable(&self, t: Target) -> bool {
        match t {
            Target::UnitIn(i) => i < self.unit_in.len(),
            Target::Stage(i) => i < self.next.len(),
            Target::Bubble(s) => s < self.next_bubble.len(),
            Target::Stall(s) => s < self.next_stall.len(),
        }
    }

    /// The wires after `v` is written to `t`; a control input is set when
    /// `v` is not zero.
    pub open spec fn write(self, t: Target, v: u64) -> WiresView {
        match t {
            Target::UnitIn(i) => WiresView { unit_in: self.unit_in.update(i as int, v), ..self },
            Target::Stage(i) => WiresView { next: self.next.update(i as int, v), ..self },
            Target::Bubble(s) => WiresView { next_bubble: self.next_bubble.update(s as int, v != 0), ..self },
            Target::Stall(s) => WiresView { next_stall: self.next_stall.update(s as int, v != 0), ..self },
        }
    }

    /// The value of an expression.
    pub open spec fn eval(&self, e: Expr) -> u64
        decreases e,
    {
        match e {
            Expr::Lit(n) => n,
            Expr::Read(lv) => self.read(lv),
            Expr::Not(a) => b2w(self.eval(*a) == 0),
            Expr::Eq(a, b) => b2w(self.eval(*a) == self.eval(*b)),
            Expr::NotEq(a, b) => b2w(self.eval(*a) != self.eval(*b)),
            Expr::In(a, set) => b2w(exists|k: int| 0 <= k < set@.len() && self.read(set@[k]) == self.eval(*a)),
            Expr::And(a, b) => b2w(self.eval(*a) != 0 && self.eval(*b) != 0),
            Expr::Or(a, b) => b2w(self.eval(*a) != 0 || self.eval(*b) != 0),
        }
    }

    /// Whether every name the expression reads exists.
    pub open spec fn expr_ok(&self, e: Expr) -> bool
        decreases e,
    {
        match e {
            Expr::Lit(_) => true,
            Expr::Read(lv) => self.readable(lv),
            Expr::Not(a) => self.expr_ok(*a),
            Expr::Eq(a, b) => self.expr_ok(*a) && self.expr_ok(*b),
            Expr::NotEq(a, b) => self.expr_ok(*a) && self.expr_ok(*b),
            Expr::In(a, set) => self.expr_ok(*a) && forall|k: int| 0 <= k < set@.len() ==> self.readable(set@[k]),
            Expr::And(a, b) => self.expr_ok(*a) && self.expr_ok(*b),
            Expr::Or(a, b) => self.expr_ok(*a) && self.expr_ok(*b),
        }
    }
}

impl Wires {
    pub open spec fn view(&self) -> WiresView {
        WiresView {
            unit_in: self.unit_in@,
            unit_out: self.unit_out@,
            inter: self.inter@,
            cur: self.cur@,
            next: self.next@,
            next_bubble: self.next_bubble@,
            next_stall: self.next_stall@,
            regs: self.regs@,
            mem: self.mem@,
        }
    }

    pub fn read(&self, lv: LValue) -> (r: u64)
        requires
            self.view().readable(lv),
        ensures
            r == self.view().read(lv),
    {
        match lv {
            LValue::Inter(i) => self.inter[i],
            LValue::UnitOut(i) => self.unit_out[i],
            LValue::Prev(i) => self.cur[i],
        }
    }

    pub fn write(&mut self, t: Target, v: u64)
        requires
            old(self).view().writable(t),
        ensures
            final(self).view() == old(self).view().write(t, v),
    {
        match t {
            Target::UnitIn(i) => self.unit_in.set(i, v),
            Target::Stage(i) => self.next.set(i, v),
            Target::Bubble(s) => self.next_bubble.set(s, v != 0),
            Target::Stall(s) => self.next_stall.set(s, v != 0),
        }
    }

    /// Evaluate an expression.
    pub fn eval(&self, e: &Expr) -> (r: u64)
        requires
            self.view().expr_ok(*e),
        ensures
            r == self.view().eval(*e),
        decreases e,
    {
        match e {
            Expr::Lit(n) => *n,
            Expr::Read(lv) => self.read(*lv),
            Expr::Not(a) => if self.eval(a) == 0 { 1 } else { 0 },
            Expr::Eq(a, b) => if self.eval(a) == self.eval(b) { 1 } else { 0 },
            Expr::NotEq(a, b) => if self.eval(a) != self.eval(b) { 1 } else { 0 },
            Expr::In(a, set) => {
                let v = self.eval(a);
                let mut k: usize = 0;
                while k < set.len()
                    invariant
                        self.view().expr_ok(*e),
                        k <= set@.len(),
                        v == self.view().eval(**a),
                        forall|j: int| 0 <= j < set@.len() ==> self.view().readable(set@[j]),
                        self.view().eval(*e) == b2w(exists|j: int| 0 <= j < set@.len() && self.view().read(set@[j]) == v),
                        forall|j: int| 0 <= j < k ==> self.view().read(set@[j]) != v,
                    decreases set@.len() - k,
                {
                    if self.read(set[k]) == v {
                        assert(self.view().read(set@[k as int]) == v);
                        return 1;
                    }
                    k = k + 1;
                }
                0
            },
            Expr::And(a, b) => if self.eval(a) != 0 && self.eval(b) != 0 { 1 } else { 0 },
            Expr::Or(a, b) => if self.eval(a) != 0 || self.eval(b) != 0 { 1 } else { 0 },
        }
    }
}

/// A guarded case of a switch, e.g. `imem.error => NOP`, with an optional
/// tunnel tag reported when it fires.
#[derive(Debug)]
pub struct Case {
    pub tunnel: Option<usize>,
    pub condition: Expr,
    pub value: Expr,
}

/// Where a signal takes its value from.
#[derive(Debug)]
pub enum SignalSource {
    /// Cases tried top to bottom; the first whose condition holds assigns
    /// the signal. If none does, the signal takes its default.
    Switch(Vec<Case>),
    /// A single expression, with an optional tunnel tag.
    Expr(Option<usize>, Expr),
}

/// A destination of a signal, with an optional tunnel tag.
#[derive(Debug, Clone, Copy, PartialEq, Eq, Structural)]
pub struct SignalDest {
    pub tunnel: Option<usize>,
    pub dest: Target,
}

/// `name = source -> destinations;`
#[derive(Debug)]
pub struct SignalDef {
    /// Index of the intermediate signal this defines.
    pub name: usize,
    /// The value the intermediate takes when no case of a switch fires.
    pub default: u64,
    pub source: SignalSource,
    pub destinations: Vec<SignalDest>,
}

impl WiresView {
    /// Index of the first case at or after `k` whose condition holds.
    pub open spec fn first_match(&self, cases: Seq<Case>, k: int) -> Option<int>
        decreases cases.len() - k,
    {
        if k < 0 || k >= cases.len() {
            None
        } else if self.eval(cases[k].condition) != 0 {
            Some(k)
        } else {
            self.first_match(cases, k + 1)
        }
    }

    /// The value a source assigns, if any, and the tunnel of what fired.
    pub open spec fn source_result(&self, src: SignalSource) -> (Option<u64>, Option<usize>) {
        match src {
            SignalSource::Expr(t, e) => (Some(self.eval(e)), t),
            SignalSource::Switch(cases) => match self.first_match(cases@, 0) {
                Some(k) => (Some(self.eval(cases@[k].value)), cases@[k].tunnel),
                None => (None, None),
            },
        }
    }

    /// The wires after `v` is written to the first `k` destinations.
    pub open spec fn write_all(self, dests: Seq<SignalDest>, v: u64, k: int) -> WiresView
        decreases k,
    {
        if k <= 0 {
            self
        } else {
            self.write_all(dests, v, k - 1).write(dests[k - 1].dest, v)
        }
    }

    pub open spec fn sources_ok(&self, src: SignalSource) -> bool {
        match src {
            SignalSource::Expr(_, e) => self.expr_ok(e),
            SignalSource::Switch(cases) => forall|k: int| 0 <= k < cases@.len() ==> self.expr_ok(#[trigger] cases@[k].condition) && self.expr_ok(cases@[k].value),
        }
    }

    /// Whether a definition only reads and writes existing places.
    pub open spec fn def_ok(&self, d: SignalDef) -> bool {
        &&& d.name < self.inter.len()
        &&& self.sources_ok(d.source)
        &&& forall|k: int| 0 <= k < d.destinations@.len() ==> self.writable(#[trigger] d.destinations@[k].dest)
    }

    /// The wires after the updater of `d` runs: the source is evaluated,
    /// the intermediate written (its default when no case fires), its value
    /// sent to each destination.
    pub open spec fn update(self, d: SignalDef) -> WiresView {
        let (assigned, _) = self.source_result(d.source);
        let w1 = match assigned {
            Some(v) => WiresView { inter: self.inter.update(d.name as int, v), ..self },
            None => WiresView { inter: self.inter.update(d.name as int, d.default), ..self },
        };
        w1.write_all(d.destinations@, w1.inter[d.name as int], d.destinations@.len() as int)
    }

    /// Tunnels reported while the updater of `d` runs: the tag of the case
    /// that fired, then, if there was one, the tags of the destinations.
    pub open spec fn update_trace(&self, d: SignalDef) -> Seq<usize> {
        match self.source_result(d.source).1 {
            Some(t) => seq![t] + dest_tunnels(d.destinations@),
            None => Seq::empty(),
        }
    }
}

/// The tunnel tags among destinations, in order.
pub open spec fn dest_tunnels(dests: Seq<SignalDest>) -> Seq<usize>
    decreases dests.len(),
{
    if dests.len() == 0 {
        Seq::empty()
    } else {
        let rest = dest_tunnels(dests.drop_last());
        match dests.last().tunnel {
            Some(t) => rest.push(t),
            None => rest,
        }
    }
}

proof fn lemma_write_keeps_shape(w: WiresView, t: Target, v: u64)
    requires
        w.writable(t),
    ensures
        w.write(t, v).inter == w.inter,
        w.write(t, v).unit_out == w.unit_out,
        w.write(t, v).cur == w.cur,
        w.write(t, v).unit_in.len() == w.unit_in.len(),
        w.write(t, v).next.len() == w.next.len(),
        w.write(t, v).next_bubble.len() == w.next_bubble.len(),
        w.write(t, v).next_stall.len() == w.next_stall.len(),
        w.write(t, v).regs == w.regs,
        w.write(t, v).mem == w.mem,
{
}

impl SignalDef {
    /// Run the updater of this signal on `w`, reporting tunnels to `trace`.
    pub fn update(&self, w: &mut Wires, trace: &mut Vec<usize>)
        requires
            old(w).view().def_ok(*self),
        ensures
            final(w).view() == old(w).view().update(*self),
            final(trace)@ == old(trace)@ + old(w).view().update_trace(*self),
    {
        let ghost w0 = w.view();
        let mut fired: Option<usize> = None;
        match &self.source {
            SignalSource::Expr(t, e) => {
                let v = w.eval(e);
                w.inter.set(self.name, v);
                fired = *t;
            },
            SignalSource::Switch(cases) => {
                let mut k: usize = 0;
                let mut done = false;
                while k < cases.len() && !done
                    invariant
                        w0.def_ok(*self),
                        self.source == SignalSource::Switch(*cases),
                        k <= cases@.len(),
                        !done ==> w.view() == w0 && fired is None && w0.first_match(cases@, 0) == w0.first_match(cases@, k as int),
                        done ==> match w0.first_match(cases@, 0) {
                            Some(j) => w.view() == (WiresView { inter: w0.inter.update(self.name as int, w0.eval(cases@[j].value)), ..w0 }) && fired == cases@[j].tunnel,
                            None => false,
                        },
                    decreases cases@.len() - k + (if done { 0int } else { 1int }),
                {
                    if w.eval(&cases[k].condition) != 0 {
                        let v = w.eval(&cases[k].value);
                        w.inter.set(self.name, v);
                        fired = cases[k].tunnel;
                        done = true;
                    } else {
                        k = k + 1;
                    }
                }
                if !done {
                    assert(w0.first_match(cases@, k as int) is None);
                    w.inter.set(self.name, self.default);
                }
            },
        }
        let ghost w1 = w.view();
        assert(w1 =~= match w0.source_result(self.source).0 {
            Some(v) => WiresView { inter: w0.inter.update(self.name as int, v), ..w0 },
            None => WiresView { inter: w0.inter.update(self.name as int, self.default), ..w0 },
        });
        let v = w.inter[self.name];
        let has_tunnel_input = fired.is_some();
        if let Some(t) = fired {
            trace.push(t);
        }
        let ghost trace1 = trace@;
        let mut k: usize = 0;
        while k < self.destinations.len()
            invariant
                w0.def_ok(*self),
                w1.inter.len() == w0.inter.len(),
                w1.unit_in.len() == w0.unit_in.len(),
                w1.next.len() == w0.next.len(),
                w1.next_bubble.len() == w0.next_bubble.len(),
                w1.next_stall.len() == w0.next_stall.len(),
                k <= self.destinations@.len(),
                v == w1.inter[self.name as int],
                w.view() == w1.write_all(self.destinations@, v, k as int),
                trace@ == trace1 + (if has_tunnel_input { dest_tunnels(self.destinations@.subrange(0, k as int)) } else { Seq::empty() }),
            decreases self.destinations@.len() - k,
        {
            let d = self.destinations[k];
            proof {
                lemma_write_all_shape(w1, self.destinations@, v, k as int);
            }
            w.write(d.dest, v);
            if has_tunnel_input {
                if let Some(t) = d.tunnel {
                    trace.push(t);
                }
            }
            proof {
                assert(self.destinations@.subrange(0, k + 1).drop_last() =~= self.destinations@.subrange(0, k as int));
            }
            k = k + 1;
        }
        proof {
            assert(self.destinations@.subrange(0, k as int) =~= self.destinations@);
        }
    }
}

pub proof fn lemma_write_all_shape(w: WiresView, dests: Seq<SignalDest>, v: u64, k: int)
    requires
        k <= dests.len(),
        forall|j: int| 0 <= j < dests.len() ==> w.writable(#[trigger] dests[j].dest),
    ensures
        w.write_all(dests, v, k).inter == w.inter,
        w.write_all(dests, v, k).unit_out == w.unit_out,
        w.write_all(dests, v, k).cur == w.cur,
        w.write_all(dests, v, k).unit_in.len() == w.unit_in.len(),
        w.write_all(dests, v, k).next.len() == w.next.len(),
        w.write_all(dests, v, k).next_bubble.len() == w.next_bubble.len(),
        w.write_all(dests, v, k).next_stall.len() == w.next_stall.len(),
        w.write_all(dests, v, k).regs == w.regs,
        w.write_all(dests, v, k).mem == w.mem,
    decreases k,
{
    if k > 0 {
        lemma_write_all_shape(w, dests, v, k - 1);
        assert(w.writable(dests[k - 1].dest));
        lemma_write_keeps_shape(w.write_all(dests, v, k - 1), dests[k - 1].dest, v);
    }
}

/// Whether an expression's names exist depends only on how many places
/// there are.
pub proof fn lemma_expr_ok_shape(a: WiresView, b: WiresView, e: Expr)
    requires
        a.inter.len() == b.inter.len(),
        a.unit_out.len() == b.unit_out.len(),
        a.cur.len() == b.cur.len(),
    ensures
        a.expr_ok(e) == b.expr_ok(e),
    decreases e,
{
    match e {
        Expr::Not(x) => lemma_expr_ok_shape(a, b, *x),
        Expr::Eq(x, y) => {
            lemma_expr_ok_shape(a, b, *x);
            lemma_expr_ok_shape(a, b, *y);
        },
        Expr::NotEq(x, y) => {
            lemma_expr_ok_shape(a, b, *x);
            lemma_expr_ok_shape(a, b, *y);
        },
        Expr::In(x, _) => lemma_expr_ok_shape(a, b, *x),
        Expr::And(x, y) => {
            lemma_expr_ok_shape(a, b, *x);
            lemma_expr_ok_shape(a, b, *y);
        },
        Expr::Or(x, y) => {
            lemma_expr_ok_shape(a, b, *x);
            lemma_expr_ok_shape(a, b, *y);
        },
        _ => {},
    }
}

/// The same for whole signal definitions.
pub proof fn lemma_def_ok_shape(a: WiresView, b: WiresView, d: SignalDef)
    requires
        a.unit_in.len() == b.unit_in.len(),
        a.unit_out.len() == b.unit_out.len(),
        a.inter.len() == b.inter.len(),
        a.cur.len() == b.cur.len(),
        a.next.len() == b.next.len(),
        a.next_bubble.len() == b.next_bubble.len(),
        a.next_stall.len() == b.next_stall.len(),
        a.def_ok(d),
    ensures
        b.def_ok(d),
{
    match d.source {
        SignalSource::Expr(_, e) => lemma_expr_ok_shape(a, b, e),
        SignalSource::Switch(cases) => {
            assert forall|k: int| 0 <= k < cases@.len() implies b.expr_ok(#[trigger] cases@[k].condition) && b.expr_ok(cases@[k].value) by {
                lemma_expr_ok_shape(a, b, cases@[k].condition);
                lemma_expr_ok_shape(a, b, cases@[k].value);
            }
        },
    }
    assert forall|k: int| 0 <= k < d.destinations@.len() implies b.writable(#[trigger] d.destinations@[k].dest) by {
        assert(a.writable(d.destinations@[k].dest));
    }
}

/// An updater leaves the number of places as it was.
pub proof fn lemma_update_shape(w: WiresView, d: SignalDef)
    requires
        w.def_ok(d),
    ensures
        w.update(d).unit_in.len() == w.unit_in.len(),
        w.update(d).unit_out == w.unit_out,
        w.update(d).inter.len() == w.inter.len(),
        w.update(d).cur == w.cur,
        w.update(d).next.len() == w.next.len(),
        w.update(d).next_bubble.len() == w.next_bubble.len(),
        w.update(d).next_stall.len() == w.next_stall.len(),
        w.update(d).regs == w.regs,
        w.update(d).mem == w.mem,
{
    let (assigned, _) = w.source_result(d.source);
    let w1 = match assigned {
        Some(v) => WiresView { inter: w.inter.update(d.name as int, v), ..w },
        None => WiresView { inter: w.inter.update(d.name as int, d.default), ..w },
    };
    assert forall|j: int| 0 <= j < d.destinations@.len() implies w1.writable(#[trigger] d.destinations@[j].dest) by {
        assert(w.writable(d.destinations@[j].dest));
    }
    lemma_write_all_shape(w1, d.destinations@, w1.inter[d.name as int], d.destinations@.len() as int);
}

/// The names an expression reads, in order.
pub open spec fn expr_reads(e: Expr) -> Seq<LValue>
    decreases e,
{
    match e {
        Expr::Lit(_) => Seq::empty(),
        Expr::Read(lv) => seq![lv],
        Expr::Not(a) => expr_reads(*a),
        Expr::Eq(a, b) => expr_reads(*a) + expr_reads(*b),
        Expr::NotEq(a, b) => expr_reads(*a) + expr_reads(*b),
        Expr::In(a, set) => expr_reads(*a) + set@,
        Expr::And(a, b) => expr_reads(*a) + expr_reads(*b),
        Expr::Or(a, b) => expr_reads(*a) + expr_reads(*b),
    }
}

/// Whether a signal's source reads `lv`.
pub open spec fn source_reads(src: SignalSource, lv: LValue) -> bool {
    match src {
        SignalSource::Expr(_, e) => expr_reads(e).contains(lv),
        SignalSource::Switch(cases) => exists|k: int|
            0 <= k < cases@.len() && (expr_reads(#[trigger] cases@[k].condition).contains(lv) || expr_reads(
                cases@[k].value,
            ).contains(lv)),
    }
}

/// Append the names `e` reads.
pub fn collect_reads(e: &Expr, out: &mut Vec<LValue>)
    ensures
        final(out)@ == old(out)@ + expr_reads(*e),
    decreases e,
{
    match e {
        Expr::Lit(_) => {},
        Expr::Read(lv) => out.push(*lv),
        Expr::Not(a) => collect_reads(a, out),
        Expr::Eq(a, b) | Expr::NotEq(a, b) | Expr::And(a, b) | Expr::Or(a, b) => {
            collect_reads(a, out);
            collect_reads(b, out);
        },
        Expr::In(a, set) => {
            collect_reads(a, out);
            let mut k: usize = 0;
            let ghost mid = out@;
            while k < set.len()
                invariant
                    k <= set@.len(),
                    out@ == mid + set@.subrange(0, k as int),
                decreases set@.len() - k,
            {
                out.push(set[k]);
                k = k + 1;
                assert(out@ =~= mid + set@.subrange(0, k as int));
            }
            assert(set@.subrange(0, k as int) =~= set@);
        },
    }
    assert(out@ =~= old(out)@ + expr_reads(*e));
}

impl SignalDef {
    /// The names this signal's source reads.
    pub fn reads(&self) -> (r: Vec<LValue>)
        ensures
            forall|lv: LValue| r@.contains(lv) <==> source_reads(self.source, lv),
    {
        self.source.lvalues()
    }
}

/// What a destination path resolves to: an intermediate signal, or a place
/// a signal's value is sent to.
#[derive(Debug, Clone, Copy, PartialEq, Eq, Structural)]
pub enum LhsRef {
    Inter(usize),
    Place(Target),
}

/// Index of the first entry equal to `k`.
pub open spec fn first_index(keys: Seq<Seq<char>>, k: Seq<char>) -> Option<int>
    decreases keys.len(),
{
    if keys.len() == 0 {
        None
    } else if keys.last() == k {
        match first_index(keys.drop_last(), k) {
            Some(i) => Some(i),
            None => Some(keys.len() - 1),
        }
    } else {
        first_index(keys.drop_last(), k)
    }
}

/// Index of the first pair equal to `(a, b)`.
pub open spec fn first_pair(keys: Seq<(Seq<char>, Seq<char>)>, a: Seq<char>, b: Seq<char>) -> Option<int>
    decreases keys.len(),
{
    if keys.len() == 0 {
        None
    } else if keys.last() == (a, b) {
        match first_pair(keys.drop_last(), a, b) {
            Some(i) => Some(i),
            None => Some(keys.len() - 1),
        }
    } else {
        first_pair(keys.drop_last(), a, b)
    }
}

/// The names of a circuit: intermediates, stage aliases, stage fields and
/// unit ports, each indexed as in the wires.
#[derive(Debug, Clone)]
pub struct NameTables {
    /// Intermediate signal names.
    pub inters: Vec<String>,
    /// Stage aliases `(current, previous)`: `current.f` is written for the
    /// next cycle, `previous.f` reads the latched value.
    pub aliases: Vec<(String, String)>,
    /// Stage fields `(current stage symbol, field)`.
    pub fields: Vec<(String, String)>,
    /// Stage symbols (current side), indexed as in the control inputs.
    pub stages: Vec<String>,
    /// Unit input ports `(unit, port)`.
    pub inputs: Vec<(String, String)>,
    /// Unit output ports `(unit, port)`.
    pub outputs: Vec<(String, String)>,
}

/// The previous (or current) side of each stage alias.
pub open spec fn alias_keys(v: Seq<(String, String)>, previous: bool) -> Seq<Seq<char>> {
    Seq::new(v.len(), |i: int| if previous { v[i].1@ } else { v[i].0@ })
}

pub open spec fn names_of(v: Seq<String>) -> Seq<Seq<char>> {
    Seq::new(v.len(), |i: int| v[i]@)
}

pub open spec fn pairs_of(v: Seq<(String, String)>) -> Seq<(Seq<char>, Seq<char>)> {
    Seq::new(v.len(), |i: int| (v[i].0@, v[i].1@))
}

impl NameTables {
    /// The current-side stage whose previous side is `p`, if any.
    pub open spec fn prev_stage(&self, p: Seq<char>) -> Option<Seq<char>> {
        match first_index(alias_keys(self.aliases@, true), p) {
            Some(i) => Some(self.aliases@[i].0@),
            None => None,
        }
    }

    pub open spec fn is_current(&self, c: Seq<char>) -> bool {
        first_index(alias_keys(self.aliases@, false), c) is Some
    }

    /// What a dotted path denotes in an expression: a bare intermediate
    /// name, a field of a previous-cycle stage, or a unit output port.
    /// Signals and ports are single words, so paths of three or more names
    /// denote nothing.
    pub open spec fn spec_resolve_rhs(&self, path: Seq<Seq<char>>) -> Option<LValue> {
        if path.len() == 0 {
            None
        } else if path.len() == 1 {
            match first_index(names_of(self.inters@), path[0]) {
                Some(i) => Some(LValue::Inter(i as usize)),
                None => None,
            }
        } else if path.len() == 2 {
            match self.prev_stage(path[0]) {
                Some(cur) => match first_pair(pairs_of(self.fields@), cur, path[1]) {
                    Some(i) => Some(LValue::Prev(i as usize)),
                    None => None,
                },
                None => match first_pair(pairs_of(self.outputs@), path[0], path[1]) {
                    Some(i) => Some(LValue::UnitOut(i as usize)),
                    None => None,
                },
            }
        } else {
            None
        }
    }

    /// What a dotted path denotes as a destination: a bare intermediate
    /// name writes that intermediate; otherwise a field (or the `bubble` /
    /// `stall` input) of a next-cycle stage, or a unit input port. Signals
    /// are single words, so a longer path under an intermediate names
    /// nothing.
    pub open spec fn spec_resolve_lhs(&self, path: Seq<Seq<char>>) -> Option<LhsRef> {
        if path.len() == 1 {
            match first_index(names_of(self.inters@), path[0]) {
                Some(i) => Some(LhsRef::Inter(i as usize)),
                None => None,
            }
        } else if path.len() != 2 || first_index(names_of(self.inters@), path[0]) is Some {
            None
        } else if self.is_current(path[0]) {
            if path[1] == "bubble"@ || path[1] == "stall"@ {
                match first_index(names_of(self.stages@), path[0]) {
                    Some(s) => Some(LhsRef::Place(if path[1] == "bubble"@ { Target::Bubble(s as usize) } else { Target::Stall(s as usize) })),
                    None => None,
                }
            } else {
                match first_pair(pairs_of(self.fields@), path[0], path[1]) {
                    Some(i) => Some(LhsRef::Place(Target::Stage(i as usize))),
                    None => None,
                }
            }
        } else {
            match first_pair(pairs_of(self.inputs@), path[0], path[1]) {
                Some(i) => Some(LhsRef::Place(Target::UnitIn(i as usize))),
                None => None,
            }
        }
    }
}

proof fn lemma_first_index_found(keys: Seq<Seq<char>>, k: Seq<char>, i: int)
    requires
        0 <= i < keys.len(),
        keys[i] == k,
        forall|j: int| 0 <= j < i ==> keys[j] != k,
    ensures
        first_index(keys, k) == Some(i),
    decreases keys.len(),
{
    if i < keys.len() - 1 {
        lemma_first_index_found(keys.drop_last(), k, i);
    } else {
        lemma_first_index_absent(keys.drop_last(), k);
    }
}

proof fn lemma_first_index_absent(keys: Seq<Seq<char>>, k: Seq<char>)
    requires
        forall|j: int| 0 <= j < keys.len() ==> keys[j] != k,
    ensures
        first_index(keys, k) is None,
    decreases keys.len(),
{
    if keys.len() > 0 {
        lemma_first_index_absent(keys.drop_last(), k);
    }
}

proof fn lemma_first_pair_found(keys: Seq<(Seq<char>, Seq<char>)>, a: Seq<char>, b: Seq<char>, i: int)
    requires
        0 <= i < keys.len(),
        keys[i] == (a, b),
        forall|j: int| 0 <= j < i ==> keys[j] != (a, b),
    ensures
        first_pair(keys, a, b) == Some(i),
    decreases keys.len(),
{
    if i < keys.len() - 1 {
        lemma_first_pair_found(keys.drop_last(), a, b, i);
    } else {
        lemma_first_pair_absent(keys.drop_last(), a, b);
    }
}

proof fn lemma_first_pair_absent(keys: Seq<(Seq<char>, Seq<char>)>, a: Seq<char>, b: Seq<char>)
    requires
        forall|j: int| 0 <= j < keys.len() ==> keys[j] != (a, b),
    ensures
        first_pair(keys, a, b) is None,
    decreases keys.len(),
{
    if keys.len() > 0 {
        lemma_first_pair_absent(keys.drop_last(), a, b);
    }
}

/// Position of the first name equal to `k`.
fn find_name(v: &Vec<String>, k: &String) -> (r: Option<usize>)
    ensures
        r matches Some(i) ==> i < v@.len() && first_index(names_of(v@), k@) == Some(i as int),
        r is None ==> first_index(names_of(v@), k@) is None,
{
    let mut i: usize = 0;
    while i < v.len()
        invariant
            i <= v@.len(),
            forall|j: int| 0 <= j < i ==> names_of(v@)[j] != k@,
        decreases v@.len() - i,
    {
        if v[i] == *k {
            proof {
                lemma_first_index_found(names_of(v@), k@, i as int);
            }
            return Some(i);
        }
        i = i + 1;
    }
    proof {
        lemma_first_index_absent(names_of(v@), k@);
    }
    None
}

/// Position of the first pair equal to `(a, b)`.
fn find_pair(v: &Vec<(String, String)>, a: &String, b: &String) -> (r: Option<usize>)
    ensures
        r matches Some(i) ==> i < v@.len() && first_pair(pairs_of(v@), a@, b@) == Some(i as int),
        r is None ==> first_pair(pairs_of(v@), a@, b@) is None,
{
    let mut i: usize = 0;
    while i < v.len()
        invariant
            i <= v@.len(),
            forall|j: int| 0 <= j < i ==> pairs_of(v@)[j] != (a@, b@),
        decreases v@.len() - i,
    {
        if v[i].0 == *a && v[i].1 == *b {
            proof {
                lemma_first_pair_found(pairs_of(v@), a@, b@, i as int);
            }
            return Some(i);
        }
        i = i + 1;
    }
    proof {
        lemma_first_pair_absent(pairs_of(v@), a@, b@);
    }
    None
}

/// Position of the first alias whose chosen side equals `k`.
fn find_alias(v: &Vec<(String, String)>, k: &String, previous: bool) -> (r: Option<usize>)
    ensures
        r matches Some(i) ==> i < v@.len() && first_index(alias_keys(v@, previous), k@) == Some(i as int),
        r is None ==> first_index(alias_keys(v@, previous), k@) is None,
{
    let ghost keys = alias_keys(v@, previous);
    let mut i: usize = 0;
    while i < v.len()
        invariant
            i <= v@.len(),
            keys == alias_keys(v@, previous),
            forall|j: int| 0 <= j < i ==> keys[j] != k@,
        decreases v@.len() - i,
    {
        let hit = if previous { v[i].1 == *k } else { v[i].0 == *k };
        if hit {
            proof {
                lemma_first_index_found(keys, k@, i as int);
            }
            return Some(i);
        }
        i = i + 1;
    }
    proof {
        lemma_first_index_absent(keys, k@);
    }
    None
}

pub open spec fn path_view(path: Seq<String>) -> Seq<Seq<char>> {
    Seq::new(path.len(), |i: int| path[i]@)
}

impl NameTables {
    /// Resolve a dotted path read by an expression.
    pub fn resolve_rhs(&self, path: &Vec<String>) -> (r: Option<LValue>)
        ensures
            r == self.spec_resolve_rhs(path_view(path@)),
    {
        let ghost pv = path_view(path@);
        if path.len() == 1 {
            assert(pv[0] == path@[0]@);
            match find_name(&self.inters, &path[0]) {
                Some(i) => Some(LValue::Inter(i)),
                None => None,
            }
        } else if path.len() == 2 {
            assert(pv[0] == path@[0]@ && pv[1] == path@[1]@);
            match find_alias(&self.aliases, &path[0], true) {
                Some(a) => {
                    assert(self.prev_stage(pv[0]) == Some(self.aliases@[a as int].0@));
                    match find_pair(&self.fields, &self.aliases[a].0, &path[1]) {
                        Some(i) => Some(LValue::Prev(i)),
                        None => None,
                    }
                },
                None => {
                    assert(self.prev_stage(pv[0]) is None);
                    match find_pair(&self.outputs, &path[0], &path[1]) {
                        Some(i) => Some(LValue::UnitOut(i)),
                        None => None,
                    }
                },
            }
        } else {
            None
        }
    }

    /// Resolve a dotted path written as a destination.
    pub fn resolve_lhs(&self, path: &Vec<String>) -> (r: Option<LhsRef>)
        ensures
            r == self.spec_resolve_lhs(path_view(path@)),
    {
        let ghost pv = path_view(path@);
        assert(path@.len() >= 1 ==> pv[0] == path@[0]@);
        assert(path@.len() >= 2 ==> pv[0] == path@[0]@ && pv[1] == path@[1]@);
        if path.len() == 1 {
            return match find_name(&self.inters, &path[0]) {
                Some(i) => Some(LhsRef::Inter(i)),
                None => None,
            };
        }
        if path.len() != 2 {
            return None;
        }
        if find_name(&self.inters, &path[0]).is_some() {
            return None;
        }
        let cur = find_alias(&self.aliases, &path[0], false);
        proof {
            reveal_strlit("bubble");
            reveal_strlit("stall");
        }
        if cur.is_some() {
            let bubble = path[1] == String::from_str("bubble");
            let stall = path[1] == String::from_str("stall");
            if bubble || stall {
                match find_name(&self.stages, &path[0]) {
                    Some(s) => Some(LhsRef::Place(if bubble { Target::Bubble(s) } else { Target::Stall(s) })),
                    None => None,
                }
            } else {
                match find_pair(&self.fields, &path[0], &path[1]) {
                    Some(i) => Some(LhsRef::Place(Target::Stage(i))),
                    None => None,
                }
            }
        } else {
            match find_pair(&self.inputs, &path[0], &path[1]) {
                Some(i) => Some(LhsRef::Place(Target::UnitIn(i))),
                None => None,
            }
        }
    }
}

/// Index of the first definition of intermediate `name`.
pub open spec fn first_def(defs: Seq<SignalDef>, name: usize) -> Option<int> {
    if exists|i: int| 0 <= i < defs.len() && defs[i].name == name {
        Some(choose|i: int| 0 <= i < defs.len() && defs[i].name == name && forall|j: int| 0 <= j < i ==> defs[j].name != name)
    } else {
        None
    }
}

/// The directives `@set_input(unit, {field: signal})` and
/// `@set_stage(stage, {field: signal})`: add `dest` to the definition of
/// intermediate `name`. Returns whether a definition of `name` exists;
/// nothing changes if none does.
pub fn attach_destination(defs: &mut Vec<SignalDef>, name: usize, dest: Target) -> (found: bool)
    ensures
        found == first_def(old(defs)@, name) is Some,
        final(defs)@.len() == old(defs)@.len(),
        match first_def(old(defs)@, name) {
            Some(i) => {
                &&& forall|j: int| 0 <= j < old(defs)@.len() && j != i ==> final(defs)@[j] == old(defs)@[j]
                &&& final(defs)@[i].name == name
                &&& final(defs)@[i].source == old(defs)@[i].source
                &&& final(defs)@[i].default == old(defs)@[i].default
                &&& final(defs)@[i].destinations@ == old(defs)@[i].destinations@.push(SignalDest { tunnel: None, dest })
            },
            None => final(defs)@ == old(defs)@,
        },
{
    let mut i: usize = 0;
    while i < defs.len()
        invariant
            defs@ == old(defs)@,
            i <= defs@.len(),
            forall|j: int| 0 <= j < i ==> defs@[j].name != name,
        decreases defs@.len() - i,
    {
        if defs[i].name == name {
            let ghost old_defs = defs@;
            assert(first_def(old_defs, name) == Some(i as int)) by {
                let k = choose|k: int| 0 <= k < old_defs.len() && old_defs[k].name == name && forall|j: int| 0 <= j < k ==> old_defs[j].name != name;
            }
            let mut d = defs.remove(i);
            d.destinations.push(SignalDest { tunnel: None, dest });
            defs.insert(i, d);
            assert forall|j: int| 0 <= j < old_defs.len() && j != i implies defs@[j] == old_defs[j] by {}
            return true;
        }
        i = i + 1;
    }
    false
}

impl Expr {
    /// Get all lvalues in the expression, in order.
    pub fn lvalues(&self) -> (r: Vec<LValue>)
        ensures
            r@ == expr_reads(*self),
    {
        let mut out: Vec<LValue> = Vec::new();
        collect_reads(self, &mut out);
        assert(out@ =~= expr_reads(*self));
        out
    }
}

impl Case {
    /// The lvalues of the condition, then those of the value.
    pub fn lvalues(&self) -> (r: Vec<LValue>)
        ensures
            r@ == expr_reads(self.condition) + expr_reads(self.value),
    {
        let mut out = self.condition.lvalues();
        collect_reads(&self.value, &mut out);
        out
    }
}

impl SignalSource {
    /// Every lvalue the source reads (with repetitions).
    pub fn lvalues(&self) -> (r: Vec<LValue>)
        ensures
            forall|lv: LValue| r@.contains(lv) <==> source_reads(*self, lv),
    {
        let mut out: Vec<LValue> = Vec::new();
        match self {
            SignalSource::Expr(_, e) => {
                collect_reads(e, &mut out);
                assert(out@ =~= expr_reads(*e));
            },
            SignalSource::Switch(cases) => {
                let mut k: usize = 0;
                while k < cases.len()
                    invariant
                        *self == SignalSource::Switch(*cases),
                        k <= cases@.len(),
                        forall|lv: LValue| out@.contains(lv) <==> exists|j: int|
                            0 <= j < k && (expr_reads(#[trigger] cases@[j].condition).contains(lv) || expr_reads(
                                cases@[j].value,
                            ).contains(lv)),
                    decreases cases@.len() - k,
                {
                    let ghost before = out@;
                    let more = cases[k].lvalues();
                    let mut m: usize = 0;
                    while m < more.len()
                        invariant
                            m <= more@.len(),
                            out@ == before + more@.subrange(0, m as int),
                        decreases more@.len() - m,
                    {
                        out.push(more[m]);
                        m = m + 1;
                        assert(out@ =~= before + more@.subrange(0, m as int));
                    }
                    proof {
                        let c = cases@[k as int];
                        assert(more@.subrange(0, m as int) =~= more@);
                        assert(out@ =~= before + expr_reads(c.condition) + expr_reads(c.value));
                        assert forall|lv: LValue| out@.contains(lv) <==> exists|j: int|
                            0 <= j < k + 1 && (expr_reads(#[trigger] cases@[j].condition).contains(lv) || expr_reads(
                                cases@[j].value,
                            ).contains(lv)) by {
                            if out@.contains(lv) {
                                let i = choose|i: int| 0 <= i < out@.len() && out@[i] == lv;
                                if i >= before.len() {
                                    if i < before.len() + expr_reads(c.condition).len() {
                                        assert(expr_reads(c.condition)[i - before.len()] == lv);
                                    } else {
                                        assert(expr_reads(c.value)[i - before.len() - expr_reads(c.condition).len()] == lv);
                                    }
                                    assert(expr_reads(cases@[k as int].condition).contains(lv) || expr_reads(cases@[k as int].value).contains(lv));
                                } else {
                                    assert(before[i] == lv);
                                    assert(before.contains(lv));
                                }
                            }
                            if exists|j: int|
                                0 <= j < k + 1 && (expr_reads(#[trigger] cases@[j].condition).contains(lv) || expr_reads(
                                    cases@[j].value,
                                ).contains(lv)) {
                                let j = choose|j: int|
                                    0 <= j < k + 1 && (expr_reads(#[trigger] cases@[j].condition).contains(lv) || expr_reads(
                                        cases@[j].value,
                                    ).contains(lv));
                                if j < k {
                                    assert(before.contains(lv));
                                    let i = choose|i: int| 0 <= i < before.len() && before[i] == lv;
                                    assert(out@[i] == lv);
                                } else if expr_reads(c.condition).contains(lv) {
                                    let i = choose|i: int| 0 <= i < expr_reads(c.condition).len() && expr_reads(c.condition)[i] == lv;
                                    assert(out@[before.len() + i] == lv);
                                } else {
                                    let i = choose|i: int| 0 <= i < expr_reads(c.value).len() && expr_reads(c.value)[i] == lv;
                                    assert(out@[before.len() + expr_reads(c.condition).len() + i] == lv);
                                }
                            }
                        }
                    }
                    k = k + 1;
                }
            },
        }
        out
    }
}

impl Wires {
    /// Whether `lv` names an existing place.
    pub fn can_read(&self, lv: LValue) -> (r: bool)
        ensures
            r == self.view().readable(lv),
    {
        match lv {
            LValue::Inter(i) => i < self.inter.len(),
            LValue::UnitOut(i) => i < self.unit_out.len(),
            LValue::Prev(i) => i < self.cur.len(),
        }
    }

    /// Whether `t` names an existing place.
    pub fn can_write(&self, t: Target) -> (r: bool)
        ensures
            r == self.view().writable(t),
    {
        match t {
            Target::UnitIn(i) => i < self.unit_in.len(),
            Target::Stage(i) => i < self.next.len(),
            Target::Bubble(s) => s < self.next_bubble.len(),
            Target::Stall(s) => s < self.next_stall.len(),
        }
    }

    /// Whether every name the expression reads exists.
    pub fn expr_fits(&self, e: &Expr) -> (r: bool)
        ensures
            r == self.view().expr_ok(*e),
        decreases e,
    {
        match e {
            Expr::Lit(_) => true,
            Expr::Read(lv) => self.can_read(*lv),
            Expr::Not(a) => self.expr_fits(a),
            Expr::Eq(a, b) => self.expr_fits(a) && self.expr_fits(b),
            Expr::NotEq(a, b) => self.expr_fits(a) && self.expr_fits(b),
            Expr::And(a, b) => self.expr_fits(a) && self.expr_fits(b),
            Expr::Or(a, b) => self.expr_fits(a) && self.expr_fits(b),
            Expr::In(a, set) => {
                if !self.expr_fits(a) {
                    return false;
                }
                let ghost ok = self.view().expr_ok(*e);
                assert(ok == (self.view().expr_ok(**a) && forall|j: int| 0 <= j < set@.len() ==> self.view().readable(set@[j])));
                let mut k: usize = 0;
                while k < set.len()
                    invariant
                        self.view().expr_ok(**a),
                        ok == self.view().expr_ok(*e),
                        ok == (self.view().expr_ok(**a) && forall|j: int| 0 <= j < set@.len() ==> self.view().readable(set@[j])),
                        k <= set@.len(),
                        forall|j: int| 0 <= j < k ==> self.view().readable(set@[j]),
                    decreases set@.len() - k,
                {
                    if !self.can_read(set[k]) {
                        assert(!self.view().readable(set@[k as int]));
                        return false;
                    }
                    k = k + 1;
                }
                true
            },
        }
    }

    /// Whether a definition only reads and writes existing places.
    pub fn def_fits(&self, d: &SignalDef) -> (r: bool)
        ensures
            r == self.view().def_ok(*d),
    {
        if d.name >= self.inter.len() {
            return false;
        }
        match &d.source {
            SignalSource::Expr(_, e) => {
                if !self.expr_fits(e) {
                    return false;
                }
            },
            SignalSource::Switch(cases) => {
                let mut k: usize = 0;
                while k < cases.len()
                    invariant
                        d.source == SignalSource::Switch(*cases),
                        k <= cases@.len(),
                        forall|j: int| 0 <= j < k ==> self.view().expr_ok(#[trigger] cases@[j].condition) && self.view().expr_ok(cases@[j].value),
                    decreases cases@.len() - k,
                {
                    if !self.expr_fits(&cases[k].condition) || !self.expr_fits(&cases[k].value) {
                        return false;
                    }
                    k = k + 1;
                }
            },
        }
        let mut k: usize = 0;
        while k < d.destinations.len()
            invariant
                self.view().sources_ok(d.source),
                d.name < self.inter@.len(),
                k <= d.destinations@.len(),
                forall|j: int| 0 <= j < k ==> self.view().writable(#[trigger] d.destinations@[j].dest),
            decreases d.destinations@.len() - k,
        {
            if !self.can_write(d.destinations[k].dest) {
                return false;
            }
            k = k + 1;
        }
        true
    }
}

/// Whether no two definitions define the same intermediate.
pub open spec fn names_distinct(defs: Seq<SignalDef>) -> bool {
    forall|d: int, e: int| 0 <= d < e < defs.len() ==> defs[d].name != defs[e].name
}

/// Check that no two definitions define the same intermediate.
pub fn distinct_names(defs: &Vec<SignalDef>) -> (r: bool)
    ensures
        r == names_distinct(defs@),
{
    let mut e: usize = 0;
    while e < defs.len()
        invariant
            e <= defs@.len(),
            forall|i: int, j: int| 0 <= i < j < e ==> defs@[i].name != defs@[j].name,
        decreases defs@.len() - e,
    {
        let mut d: usize = 0;
        while d < e
            invariant
                e < defs@.len(),
                d <= e,
                forall|i: int, j: int| 0 <= i < j < e ==> defs@[i].name != defs@[j].name,
                forall|i: int| 0 <= i < d ==> defs@[i].name != defs@[e as int].name,
            decreases e - d,
        {
            if defs[d].name == defs[e].name {
                return false;
            }
            d = d + 1;
        }
        e = e + 1;
    }
    true
}

} // verus!
