//! Compiling signal definitions into a circuit: the node layout, the edges
//! the definitions imply, and the evaluation order.
use vstd::prelude::*;

use crate::framework::{NodeAction, PropCircuit, UnitDef};
use crate::hcl::{source_reads, LValue, SignalDef, Target};
use crate::order::{acyclic, is_ranking, lemma_edge_rank, CyclicGraph, PropOrderBuilder, PropOrderItem};

verus! {

/// Sizes of a circuit: units, unit input ports, unit output ports and
/// intermediate signals. Nodes are numbered in that order.
#[derive(Debug, Clone, Copy, PartialEq, Eq, Structural)]
pub struct Layout {
    pub n_units: usize,
    pub n_in: usize,
    pub n_out: usize,
    pub n_inter: usize,
}

impl Layout {
    pub open spec fn in_node(self, p: int) -> int {
        self.n_units + p
    }

    pub open spec fn out_node(self, q: int) -> int {
        self.n_units + self.n_in + q
    }

    pub open spec fn inter_node(self, i: int) -> int {
        self.n_units + self.n_in + self.n_out + i
    }

    pub open spec fn n_nodes(self) -> int {
        self.n_units + self.n_in + self.n_out + self.n_inter
    }

    /// The node a destination feeds; none for a next-cycle stage input.
    pub open spec fn dest_node(self, t: Target) -> Option<int> {
        match t {
            Target::UnitIn(p) => Some(self.in_node(p as int)),
            _ => None,
        }
    }

    /// The node a read depends on; none for a previous-cycle stage field.
    pub open spec fn producer(self, lv: LValue) -> Option<int> {
        match lv {
            LValue::Inter(i) => Some(self.inter_node(i as int)),
            LValue::UnitOut(q) => Some(self.out_node(q as int)),
            LValue::Prev(_) => None,
        }
    }
}

/// The edges the signal language implies: input port to unit, unit to
/// output port, each name a signal reads to that signal, and a signal to each
/// unit input it drives. Stage-field destinations make no edge: they are
/// consumed only at the end of the cycle.
pub open spec fn required_edge(l: Layout, units: Seq<UnitDef>, signals: Seq<SignalDef>, a: int, b: int) -> bool {
    ||| exists|u: int, i: int| 0 <= u < units.len() && 0 <= i < units[u].inputs@.len() && a == l.in_node(#[trigger] units[u].inputs@[i] as int) && b == u
    ||| exists|u: int, i: int| 0 <= u < units.len() && 0 <= i < units[u].outputs@.len() && a == u && b == l.out_node(#[trigger] units[u].outputs@[i] as int)
    ||| exists|d: int, lv: LValue| 0 <= d < signals.len() && #[trigger] source_reads(signals[d].source, lv) && l.producer(lv) == Some(a) && b == l.inter_node(signals[d].name as int)
    ||| exists|d: int, k: int| 0 <= d < signals.len() && 0 <= k < signals[d].destinations@.len() && l.dest_node((#[trigger] signals[d].destinations@[k]).dest) == Some(b) && a == l.inter_node(signals[d].name as int)
}

/// Whether some numbering of the nodes makes every required edge go up.
pub open spec fn definitions_acyclic(l: Layout, units: Seq<UnitDef>, signals: Seq<SignalDef>) -> bool {
    exists|rank: Seq<nat>| rank.len() == l.n_nodes() && forall|a: int, b: int| #[trigger] required_edge(l, units, signals, a, b) ==> rank[a] < rank[b]
}

/// Whether every index in the definitions fits the layout, and each
/// intermediate has at most one definition.
pub open spec fn definitions_fit(l: Layout, units: Seq<UnitDef>, signals: Seq<SignalDef>) -> bool {
    &&& units.len() == l.n_units
    &&& l.n_nodes() < usize::MAX
    &&& forall|u: int, i: int| 0 <= u < units.len() && 0 <= i < units[u].inputs@.len() ==> #[trigger] units[u].inputs@[i] < l.n_in
    &&& forall|u: int, i: int| 0 <= u < units.len() && 0 <= i < units[u].outputs@.len() ==> #[trigger] units[u].outputs@[i] < l.n_out
    &&& forall|d: int| 0 <= d < signals.len() ==> #[trigger] signals[d].name < l.n_inter
    &&& forall|d: int, lv: LValue| 0 <= d < signals.len() && #[trigger] source_reads(signals[d].source, lv) ==> match lv {
        LValue::Inter(i) => i < l.n_inter,
        LValue::UnitOut(q) => q < l.n_out,
        LValue::Prev(_) => true,
    }
    &&& forall|d: int, k: int| 0 <= d < signals.len() && 0 <= k < signals[d].destinations@.len() ==> match (#[trigger] signals[d].destinations@[k]).dest {
        Target::UnitIn(p) => p < l.n_in,
        _ => true,
    }
    &&& forall|d: int, e: int| 0 <= d < e < signals.len() ==> signals[d].name != signals[e].name
}

proof fn lemma_push_keeps(edges: Seq<(usize, usize)>, x: (usize, usize), y: (usize, usize))
    requires
        edges.contains(y),
    ensures
        edges.push(x).contains(y),
{
    let j = choose|j: int| 0 <= j < edges.len() && edges[j] == y;
    assert(edges.push(x)[j] == y);
}

/// Whether every edge of the list is required and every required edge is in
/// the list.
pub open spec fn edges_exact(l: Layout, units: Seq<UnitDef>, signals: Seq<SignalDef>, edges: Seq<(usize, usize)>) -> bool {
    &&& forall|j: int| 0 <= j < edges.len() ==> required_edge(l, units, signals, #[trigger] edges[j].0 as int, edges[j].1 as int)
    &&& forall|a: int, b: int| #[trigger] required_edge(l, units, signals, a, b) ==> 0 <= a && 0 <= b && edges.contains((a as usize, b as usize))
}

/// Whether every edge joins two nodes of the layout.
pub open spec fn edges_wf_layout(l: Layout, edges: Seq<(usize, usize)>) -> bool {
    forall|j: int| 0 <= j < edges.len() ==> (#[trigger] edges[j]).0 < l.n_nodes() && edges[j].1 < l.n_nodes()
}

impl PropCircuit {
    /// The edges of the signal language, in the order units then signals.
    fn circuit_edges(l: Layout, units: &Vec<UnitDef>, signals: &Vec<SignalDef>) -> (edges: Vec<(usize, usize)>)
        requires
            definitions_fit(l, units@, signals@),
        ensures
            edges_exact(l, units@, signals@, edges@),
            edges_wf_layout(l, edges@),
    {
        let ghost us = units@;
        let ghost ss = signals@;
        let mut edges: Vec<(usize, usize)> = Vec::new();
        let mut u: usize = 0;
        while u < units.len()
            invariant
                definitions_fit(l, us, ss),
                us == units@,
                u <= us.len(),
                edges_wf_layout(l, edges@),
                forall|j: int| 0 <= j < edges@.len() ==> required_edge(l, us, ss, #[trigger] edges@[j].0 as int, edges@[j].1 as int),
                forall|v: int, i: int| 0 <= v < u && 0 <= i < us[v].inputs@.len() ==> edges@.contains(((l.n_units + #[trigger] us[v].inputs@[i]) as usize, v as usize)),
                forall|v: int, i: int| 0 <= v < u && 0 <= i < us[v].outputs@.len() ==> edges@.contains((v as usize, (l.n_units + l.n_in + #[trigger] us[v].outputs@[i]) as usize)),
            decreases us.len() - u,
        {
            let unit = &units[u];
            let mut i: usize = 0;
            while i < unit.inputs.len()
                invariant
                    definitions_fit(l, us, ss),
                    us == units@,
                    u < us.len(),
                    *unit == us[u as int],
                    i <= unit.inputs@.len(),
                    edges_wf_layout(l, edges@),
                    forall|j: int| 0 <= j < edges@.len() ==> required_edge(l, us, ss, #[trigger] edges@[j].0 as int, edges@[j].1 as int),
                    forall|v: int, k: int| 0 <= v < u && 0 <= k < us[v].inputs@.len() ==> edges@.contains(((l.n_units + #[trigger] us[v].inputs@[k]) as usize, v as usize)),
                    forall|v: int, k: int| 0 <= v < u && 0 <= k < us[v].outputs@.len() ==> edges@.contains((v as usize, (l.n_units + l.n_in + #[trigger] us[v].outputs@[k]) as usize)),
                    forall|k: int| 0 <= k < i ==> edges@.contains(((l.n_units + #[trigger] unit.inputs@[k]) as usize, u)),
                decreases unit.inputs@.len() - i,
            {
                let p = unit.inputs[i];
                assert(p < l.n_in);
                let e = (l.n_units + p, u);
                proof {
                    assert(required_edge(l, us, ss, e.0 as int, e.1 as int)) by {
                        assert(us[u as int].inputs@[i as int] == p);
                    }
                    assert forall|x: (usize, usize)| edges@.contains(x) implies edges@.push(e).contains(x) by {
                        lemma_push_keeps(edges@, e, x);
                    }
                    assert(edges@.push(e)[edges@.len() as int] == e);
                }
                edges.push(e);
                i = i + 1;
            }
            let mut i: usize = 0;
            while i < unit.outputs.len()
                invariant
                    definitions_fit(l, us, ss),
                    us == units@,
                    u < us.len(),
                    *unit == us[u as int],
                    i <= unit.outputs@.len(),
                    edges_wf_layout(l, edges@),
                    forall|j: int| 0 <= j < edges@.len() ==> required_edge(l, us, ss, #[trigger] edges@[j].0 as int, edges@[j].1 as int),
                    forall|v: int, k: int| 0 <= v <= u && 0 <= k < us[v].inputs@.len() ==> edges@.contains(((l.n_units + #[trigger] us[v].inputs@[k]) as usize, v as usize)),
                    forall|v: int, k: int| 0 <= v < u && 0 <= k < us[v].outputs@.len() ==> edges@.contains((v as usize, (l.n_units + l.n_in + #[trigger] us[v].outputs@[k]) as usize)),
                    forall|k: int| 0 <= k < i ==> edges@.contains((u, (l.n_units + l.n_in + #[trigger] unit.outputs@[k]) as usize)),
                decreases unit.outputs@.len() - i,
            {
                let q = unit.outputs[i];
                assert(q < l.n_out);
                let e = (u, l.n_units + l.n_in + q);
                proof {
                    assert(required_edge(l, us, ss, e.0 as int, e.1 as int)) by {
                        assert(us[u as int].outputs@[i as int] == q);
                    }
                    assert forall|x: (usize, usize)| edges@.contains(x) implies edges@.push(e).contains(x) by {
                        lemma_push_keeps(edges@, e, x);
                    }
                    assert(edges@.push(e)[edges@.len() as int] == e);
                }
                edges.push(e);
                i = i + 1;
            }
            u = u + 1;
        }
        let base = l.n_units + l.n_in + l.n_out;
        let mut d: usize = 0;
        while d < signals.len()
            invariant
                definitions_fit(l, us, ss),
                us == units@,
                ss == signals@,
                base == l.n_units + l.n_in + l.n_out,
                d <= ss.len(),
                edges_wf_layout(l, edges@),
                forall|j: int| 0 <= j < edges@.len() ==> required_edge(l, us, ss, #[trigger] edges@[j].0 as int, edges@[j].1 as int),
                forall|v: int, i: int| 0 <= v < us.len() && 0 <= i < us[v].inputs@.len() ==> edges@.contains(((l.n_units + #[trigger] us[v].inputs@[i]) as usize, v as usize)),
                forall|v: int, i: int| 0 <= v < us.len() && 0 <= i < us[v].outputs@.len() ==> edges@.contains((v as usize, (l.n_units + l.n_in + #[trigger] us[v].outputs@[i]) as usize)),
                forall|dd: int, lv: LValue| 0 <= dd < d && #[trigger] source_reads(ss[dd].source, lv) && l.producer(lv) is Some ==> edges@.contains((l.producer(lv).unwrap() as usize, l.inter_node(ss[dd].name as int) as usize)),
                forall|dd: int, k: int| 0 <= dd < d && 0 <= k < ss[dd].destinations@.len() && l.dest_node((#[trigger] ss[dd].destinations@[k]).dest) is Some ==> edges@.contains((l.inter_node(ss[dd].name as int) as usize, l.dest_node(ss[dd].destinations@[k].dest).unwrap() as usize)),
            decreases ss.len() - d,
        {
            let sig = &signals[d];
            let me = base + sig.name;
            let reads = sig.reads();
            let mut m: usize = 0;
            while m < reads.len()
                invariant
                    definitions_fit(l, us, ss),
                    us == units@,
                    ss == signals@,
                    d < ss.len(),
                    *sig == ss[d as int],
                    me == l.inter_node(sig.name as int),
                    base == l.n_units + l.n_in + l.n_out,
                    forall|lv: LValue| reads@.contains(lv) <==> source_reads(sig.source, lv),
                    m <= reads@.len(),
                    edges_wf_layout(l, edges@),
                    forall|j: int| 0 <= j < edges@.len() ==> required_edge(l, us, ss, #[trigger] edges@[j].0 as int, edges@[j].1 as int),
                    forall|v: int, i: int| 0 <= v < us.len() && 0 <= i < us[v].inputs@.len() ==> edges@.contains(((l.n_units + #[trigger] us[v].inputs@[i]) as usize, v as usize)),
                    forall|v: int, i: int| 0 <= v < us.len() && 0 <= i < us[v].outputs@.len() ==> edges@.contains((v as usize, (l.n_units + l.n_in + #[trigger] us[v].outputs@[i]) as usize)),
                    forall|dd: int, lv: LValue| 0 <= dd < d && #[trigger] source_reads(ss[dd].source, lv) && l.producer(lv) is Some ==> edges@.contains((l.producer(lv).unwrap() as usize, l.inter_node(ss[dd].name as int) as usize)),
                    forall|dd: int, k: int| 0 <= dd < d && 0 <= k < ss[dd].destinations@.len() && l.dest_node((#[trigger] ss[dd].destinations@[k]).dest) is Some ==> edges@.contains((l.inter_node(ss[dd].name as int) as usize, l.dest_node(ss[dd].destinations@[k].dest).unwrap() as usize)),
                    forall|x: int| 0 <= x < m && l.producer(#[trigger] reads@[x]) is Some ==> edges@.contains((l.producer(reads@[x]).unwrap() as usize, me)),
                decreases reads@.len() - m,
            {
                let lv = reads[m];
                proof {
                    assert(reads@.contains(lv));
                    assert(source_reads(ss[d as int].source, lv));
                }
                let from: Option<usize> = match lv {
                    LValue::Inter(i) => Some(base + i),
                    LValue::UnitOut(q) => Some(l.n_units + l.n_in + q),
                    LValue::Prev(_) => None,
                };
                if let Some(a) = from {
                    let e = (a, me);
                    proof {
                        assert(required_edge(l, us, ss, e.0 as int, e.1 as int));
                        assert forall|x: (usize, usize)| edges@.contains(x) implies edges@.push(e).contains(x) by {
                            lemma_push_keeps(edges@, e, x);
                        }
                        assert(edges@.push(e)[edges@.len() as int] == e);
                    }
                    edges.push(e);
                }
                m = m + 1;
            }
            let mut k: usize = 0;
            while k < sig.destinations.len()
                invariant
                    definitions_fit(l, us, ss),
                    us == units@,
                    ss == signals@,
                    d < ss.len(),
                    *sig == ss[d as int],
                    me == l.inter_node(sig.name as int),
                    forall|lv: LValue| reads@.contains(lv) <==> source_reads(sig.source, lv),
                    k <= sig.destinations@.len(),
                    edges_wf_layout(l, edges@),
                    forall|j: int| 0 <= j < edges@.len() ==> required_edge(l, us, ss, #[trigger] edges@[j].0 as int, edges@[j].1 as int),
                    forall|v: int, i: int| 0 <= v < us.len() && 0 <= i < us[v].inputs@.len() ==> edges@.contains(((l.n_units + #[trigger] us[v].inputs@[i]) as usize, v as usize)),
                    forall|v: int, i: int| 0 <= v < us.len() && 0 <= i < us[v].outputs@.len() ==> edges@.contains((v as usize, (l.n_units + l.n_in + #[trigger] us[v].outputs@[i]) as usize)),
                    forall|dd: int, lv: LValue| 0 <= dd < d && #[trigger] source_reads(ss[dd].source, lv) && l.producer(lv) is Some ==> edges@.contains((l.producer(lv).unwrap() as usize, l.inter_node(ss[dd].name as int) as usize)),
                    forall|dd: int, kk: int| 0 <= dd < d && 0 <= kk < ss[dd].destinations@.len() && l.dest_node((#[trigger] ss[dd].destinations@[kk]).dest) is Some ==> edges@.contains((l.inter_node(ss[dd].name as int) as usize, l.dest_node(ss[dd].destinations@[kk].dest).unwrap() as usize)),
                    forall|x: int| 0 <= x < reads@.len() && l.producer(#[trigger] reads@[x]) is Some ==> edges@.contains((l.producer(reads@[x]).unwrap() as usize, me)),
                    forall|kk: int| 0 <= kk < k && l.dest_node((#[trigger] sig.destinations@[kk]).dest) is Some ==> edges@.contains((me, l.dest_node(sig.destinations@[kk].dest).unwrap() as usize)),
                decreases sig.destinations@.len() - k,
            {
                if let Target::UnitIn(p) = sig.destinations[k].dest {
                    proof {
                        assert(p < l.n_in);
                    }
                    let e = (me, l.n_units + p);
                    proof {
                        assert(required_edge(l, us, ss, e.0 as int, e.1 as int)) by {
                            assert(l.dest_node(ss[d as int].destinations@[k as int].dest) == Some(e.1 as int));
                        }
                        assert forall|x: (usize, usize)| edges@.contains(x) implies edges@.push(e).contains(x) by {
                            lemma_push_keeps(edges@, e, x);
                        }
                        assert(edges@.push(e)[edges@.len() as int] == e);
                    }
                    edges.push(e);
                }
                k = k + 1;
            }
            proof {
                assert forall|lv: LValue| #[trigger] source_reads(ss[d as int].source, lv) && l.producer(lv) is Some implies edges@.contains((l.producer(lv).unwrap() as usize, l.inter_node(ss[d as int].name as int) as usize)) by {
                    assert(reads@.contains(lv));
                    let x = choose|x: int| 0 <= x < reads@.len() && reads@[x] == lv;
                }
            }
            d = d + 1;
        }
        proof {
            assert forall|a: int, b: int| #[trigger] required_edge(l, us, ss, a, b) implies 0 <= a && 0 <= b && edges@.contains((a as usize, b as usize)) by {
                if exists|u: int, i: int| 0 <= u < us.len() && 0 <= i < us[u].inputs@.len() && a == l.in_node(#[trigger] us[u].inputs@[i] as int) && b == u {
                    let (u, i) = choose|u: int, i: int| 0 <= u < us.len() && 0 <= i < us[u].inputs@.len() && a == l.in_node(#[trigger] us[u].inputs@[i] as int) && b == u;
                } else if exists|u: int, i: int| 0 <= u < us.len() && 0 <= i < us[u].outputs@.len() && a == u && b == l.out_node(#[trigger] us[u].outputs@[i] as int) {
                    let (u, i) = choose|u: int, i: int| 0 <= u < us.len() && 0 <= i < us[u].outputs@.len() && a == u && b == l.out_node(#[trigger] us[u].outputs@[i] as int);
                } else if exists|dd: int, lv: LValue| 0 <= dd < ss.len() && #[trigger] source_reads(ss[dd].source, lv) && l.producer(lv) == Some(a) && b == l.inter_node(ss[dd].name as int) {
                    let (dd, lv) = choose|dd: int, lv: LValue| 0 <= dd < ss.len() && #[trigger] source_reads(ss[dd].source, lv) && l.producer(lv) == Some(a) && b == l.inter_node(ss[dd].name as int);
                    assert(lv matches LValue::Inter(_) || lv matches LValue::UnitOut(_));
                } else {
                    let (dd, k) = choose|dd: int, k: int| 0 <= dd < ss.len() && 0 <= k < ss[dd].destinations@.len() && l.dest_node((#[trigger] ss[dd].destinations@[k]).dest) == Some(b) && a == l.inter_node(ss[dd].name as int);
                }
            }
        }
        edges
    }
}

/// What node `v` of a compiled circuit does: units first, then ports, then
/// intermediates, each run by the definition that names it (a port if none).
pub open spec fn compiled_action(l: Layout, signals: Seq<SignalDef>, v: int) -> NodeAction {
    if v < l.n_units {
        NodeAction::Unit(v as usize)
    } else if exists|d: int| 0 <= d < signals.len() && l.inter_node(signals[d].name as int) == v {
        NodeAction::Signal((choose|d: int| 0 <= d < signals.len() && l.inter_node(signals[d].name as int) == v) as usize)
    } else {
        NodeAction::Port
    }
}

/// Whether `c` is the circuit of these definitions: its order is valid over
/// one node per unit, port and intermediate, each node does what the layout
/// says, and every edge the definitions imply goes forward in the order.
pub open spec fn compiled_from(l: Layout, units: Seq<UnitDef>, signals: Seq<SignalDef>, c: PropCircuit) -> bool {
    &&& c.order.wf()
    &&& c.order.nodes@.len() == l.n_nodes()
    &&& c.units@ == units
    &&& c.signals@ == signals
    &&& signals.len() <= usize::MAX
    &&& c.actions@.len() == l.n_nodes()
    &&& forall|v: int| 0 <= v < l.n_nodes() ==> #[trigger] c.actions@[v] == compiled_action(l, signals, v)
    &&& forall|a: int, b: int| #[trigger] required_edge(l, units, signals, a, b) ==> c.order.rank@[a] < c.order.rank@[b]
}

impl PropCircuit {
    /// Compile units and signal definitions into a circuit: one node per
    /// unit, unit port and intermediate signal (named by `names`), the edges
    /// that the definitions imply, and an evaluation order. Fails exactly when
    /// those edges form a cycle.
    pub fn compile(l: Layout, names: Vec<String>, units: Vec<UnitDef>, signals: Vec<SignalDef>) -> (r: Result<PropCircuit, CyclicGraph>)
        requires
            definitions_fit(l, units@, signals@),
            names@.len() == l.n_nodes(),
        ensures
            r is Err <==> !definitions_acyclic(l, units@, signals@),
            r matches Ok(c) ==> {
                &&& compiled_from(l, units@, signals@, c)
                &&& forall|v: int| 0 <= v < l.n_nodes() ==> (#[trigger] c.order.nodes@[v]).is_unit == (v < l.n_units) && c.order.nodes@[v].name@ == names@[v]@
            },
    {
        let n = l.n_units + l.n_in + l.n_out + l.n_inter;
        let edges = PropCircuit::circuit_edges(l, &units, &signals);
        let mut names = names;
        let mut nodes: Vec<PropOrderItem> = Vec::new();
        let mut v: usize = 0;
        let ghost all_names = names@;
        while v < n
            invariant
                n == l.n_nodes(),
                v <= n,
                all_names.len() == n,
                names@ == all_names.subrange(v as int, n as int),
                nodes@.len() == v,
                forall|w: int| 0 <= w < v ==> (#[trigger] nodes@[w]).is_unit == (w < l.n_units) && nodes@[w].name@ == all_names[w]@,
            decreases n - v,
        {
            let name = names.remove(0);
            nodes.push(PropOrderItem { name, is_unit: v < l.n_units });
            v = v + 1;
            assert(names@ =~= all_names.subrange(v as int, n as int));
        }
        let mut actions: Vec<NodeAction> = Vec::new();
        let mut v: usize = 0;
        while v < n
            invariant
                n == l.n_nodes(),
                v <= n,
                actions@.len() == v,
                forall|w: int| 0 <= w < v ==> #[trigger] actions@[w] == (if w < l.n_units { NodeAction::Unit(w as usize) } else { NodeAction::Port }),
            decreases n - v,
        {
            actions.push(if v < l.n_units { NodeAction::Unit(v) } else { NodeAction::Port });
            v = v + 1;
        }
        let base = l.n_units + l.n_in + l.n_out;
        let mut d: usize = 0;
        while d < signals.len()
            invariant
                definitions_fit(l, units@, signals@),
                n == l.n_nodes(),
                base == l.n_units + l.n_in + l.n_out,
                d <= signals@.len(),
                actions@.len() == n,
                forall|w: int| 0 <= w < n ==> #[trigger] actions@[w] == (if w < l.n_units {
                    NodeAction::Unit(w as usize)
                } else if exists|e: int| 0 <= e < d && l.inter_node(signals@[e].name as int) == w {
                    NodeAction::Signal((choose|e: int| 0 <= e < d && l.inter_node(signals@[e].name as int) == w) as usize)
                } else {
                    NodeAction::Port
                }),
            decreases signals@.len() - d,
        {
            let at = base + signals[d].name;
            actions.set(at, NodeAction::Signal(d));
            proof {
                assert forall|w: int| 0 <= w < n implies #[trigger] actions@[w] == (if w < l.n_units {
                    NodeAction::Unit(w as usize)
                } else if exists|e: int| 0 <= e < d + 1 && l.inter_node(signals@[e].name as int) == w {
                    NodeAction::Signal((choose|e: int| 0 <= e < d + 1 && l.inter_node(signals@[e].name as int) == w) as usize)
                } else {
                    NodeAction::Port
                }) by {
                    if w == at {
                        let e = choose|e: int| 0 <= e < d + 1 && l.inter_node(signals@[e].name as int) == w;
                        assert(signals@[e].name == signals@[d as int].name);
                        assert(e == d) by {
                            if e < d {
                                assert(signals@[e].name != signals@[d as int].name);
                            }
                        }
                    } else if exists|e: int| 0 <= e < d + 1 && l.inter_node(signals@[e].name as int) == w {
                        let e = choose|e: int| 0 <= e < d + 1 && l.inter_node(signals@[e].name as int) == w;
                        assert(e < d);
                    }
                }
            }
            d = d + 1;
        }
        let ghost es = edges@;
        let b = PropOrderBuilder { nodes, edges };
        proof {
            assert(definitions_acyclic(l, units@, signals@) <==> acyclic(n as nat, es)) by {
                if definitions_acyclic(l, units@, signals@) {
                    let rank = choose|rank: Seq<nat>| rank.len() == l.n_nodes() && forall|a: int, b: int| #[trigger] required_edge(l, units@, signals@, a, b) ==> rank[a] < rank[b];
                    assert forall|e: int| 0 <= e < es.len() implies rank[es[e].0 as int] < rank[es[e].1 as int] by {
                        assert(required_edge(l, units@, signals@, es[e].0 as int, es[e].1 as int));
                    }
                    assert(is_ranking(n as nat, es, rank));
                }
                if acyclic(n as nat, es) {
                    let rank = choose|rank: Seq<nat>| is_ranking(n as nat, es, rank);
                    assert forall|a: int, b: int| #[trigger] required_edge(l, units@, signals@, a, b) implies rank[a] < rank[b] by {
                        assert(es.contains((a as usize, b as usize)));
                        let j = choose|j: int| 0 <= j < es.len() && es[j] == (a as usize, b as usize);
                        assert(es[j].0 < n && es[j].1 < n);
                    }
                }
            }
        }
        match b.build() {
            Err(e) => Err(e),
            Ok(order) => {
                let c = PropCircuit { order, actions, units, signals };
                proof {
                    assert forall|a: int, bb: int| #[trigger] required_edge(l, units@, signals@, a, bb) implies c.order.rank@[a] < c.order.rank@[bb] by {
                        assert(es.contains((a as usize, bb as usize)));
                        let j = choose|j: int| 0 <= j < es.len() && es[j] == (a as usize, bb as usize);
                        lemma_edge_rank(n as nat, es, c.order.order@, c.order.rank@, j);
                    }
                }
                Ok(c)
            },
        }
    }
}

} // verus!
