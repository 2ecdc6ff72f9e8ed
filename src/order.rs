//! The dataflow graph of a circuit and the order in which its nodes are
//! evaluated each cycle.
use vstd::prelude::*;

verus! {

/// A node of the dataflow graph: a hardware unit, a unit port, or an
/// intermediate signal.
#[derive(Debug, Clone)]
pub struct PropOrderItem {
    pub name: String,
    pub is_unit: bool,
}

/// Whether every edge joins two nodes of `0..n`.
pub open spec fn edges_wf(n: nat, edges: Seq<(usize, usize)>) -> bool {
    forall|e: int| 0 <= e < edges.len() ==> edges[e].0 < n && edges[e].1 < n
}

/// Whether `rank` numbers the `n` nodes so that every edge goes up.
pub open spec fn is_ranking(n: nat, edges: Seq<(usize, usize)>, rank: Seq<nat>) -> bool {
    &&& rank.len() == n
    &&& forall|e: int| 0 <= e < edges.len() ==> rank[edges[e].0 as int] < rank[edges[e].1 as int]
}

/// The graph has no cycle: some numbering of its nodes makes every edge go up.
pub open spec fn acyclic(n: nat, edges: Seq<(usize, usize)>) -> bool {
    exists|rank: Seq<nat>| is_ranking(n, edges, rank)
}

/// Whether `order` lists each of the `n` nodes once, every producer before
/// its consumers.
pub open spec fn is_topo_order(n: nat, edges: Seq<(usize, usize)>, order: Seq<usize>) -> bool {
    &&& order.len() == n
    &&& order.no_duplicates()
    &&& forall|k: int| 0 <= k < n ==> order[k] < n
    &&& forall|e: int, i: int, j: int|
        0 <= e < edges.len() && 0 <= i < n && 0 <= j < n && order[i] == edges[e].0 && order[j]
            == edges[e].1 ==> i < j
}

/// 1 for a unit node, 0 otherwise.
pub open spec fn unit_weight(nodes: Seq<PropOrderItem>, v: int) -> nat {
    if nodes[v].is_unit {
        1
    } else {
        0
    }
}

/// Whether `dist[v]` is the largest number of unit nodes on a path of the
/// graph that ends at `v`, node by node: at least its own weight, at least
/// each producer's plus its own, and reached by one of these.
pub open spec fn is_longest_path(nodes: Seq<PropOrderItem>, edges: Seq<(usize, usize)>, dist: Seq<usize>) -> bool {
    &&& dist.len() == nodes.len()
    &&& forall|v: int| 0 <= v < nodes.len() ==> dist_ok(nodes, edges, dist, v)
}

pub open spec fn dist_ok(nodes: Seq<PropOrderItem>, edges: Seq<(usize, usize)>, dist: Seq<usize>, v: int) -> bool {
    let w = unit_weight(nodes, v);
    &&& dist[v] >= w
    &&& forall|e: int| 0 <= e < edges.len() && edges[e].1 == v ==> dist[v] >= dist[edges[e].0 as int] + w
    &&& (dist[v] == w || exists|e: int| 0 <= e < edges.len() && edges[e].1 == v && dist[v] == dist[edges[e].0 as int] + w)
}

/// Builder of the dataflow graph.
#[derive(Debug, Clone)]
pub struct PropOrderBuilder {
    pub nodes: Vec<PropOrderItem>,
    /// Directed dependencies `producer -> consumer`, by node index.
    pub edges: Vec<(usize, usize)>,
}

/// The graph has a cycle, so no order exists.
#[derive(Debug, Clone, Copy, PartialEq, Eq, Structural)]
pub struct CyclicGraph;

/// The graph with its evaluation order.
#[derive(Debug, Clone)]
pub struct PropOrder {
    pub nodes: Vec<PropOrderItem>,
    pub edges: Vec<(usize, usize)>,
    /// Node indices, each producer before its consumers.
    pub order: Vec<usize>,
    /// Position of each node in `order`.
    pub rank: Vec<usize>,
    /// Per node: the number of unit nodes on the longest path ending there.
    pub dist: Vec<usize>,
    /// The number of unit nodes on the longest path: the cycle cost.
    pub max_dist: usize,
}

/// Number of `true` entries.
pub open spec fn count_true(s: Seq<bool>) -> nat
    decreases s.len(),
{
    if s.len() == 0 {
        0
    } else {
        (if s.last() {
            1nat
        } else {
            0nat
        }) + count_true(s.drop_last())
    }
}

proof fn lemma_count_set(s: Seq<bool>, i: int)
    requires
        0 <= i < s.len(),
        !s[i],
    ensures
        count_true(s.update(i, true)) == count_true(s) + 1,
    decreases s.len(),
{
    let t = s.update(i, true);
    if i < s.len() - 1 {
        assert(t.drop_last() =~= s.drop_last().update(i, true));
        lemma_count_set(s.drop_last(), i);
    } else {
        assert(t.drop_last() =~= s.drop_last());
    }
}

proof fn lemma_count_all(s: Seq<bool>)
    requires
        forall|i: int| 0 <= i < s.len() ==> s[i],
    ensures
        count_true(s) == s.len(),
    decreases s.len(),
{
    if s.len() > 0 {
        lemma_count_all(s.drop_last());
    }
}

/// Unplaced nodes all wait on unplaced producers: every unplaced node lies
/// above ranks `0..=k`.
proof fn lemma_stuck_rank(n: nat, edges: Seq<(usize, usize)>, placed: Seq<bool>, rank: Seq<nat>, k: nat)
    requires
        edges_wf(n, edges),
        placed.len() == n,
        is_ranking(n, edges, rank),
        forall|v: int| 0 <= v < n && !placed[v] ==> exists|e: int| 0 <= e < edges.len() && edges[e].1 == v && !placed[edges[e].0 as int],
    ensures
        forall|v: int| 0 <= v < n && !placed[v] ==> rank[v] > k,
    decreases k,
{
    if k > 0 {
        lemma_stuck_rank(n, edges, placed, rank, (k - 1) as nat);
    }
    assert forall|v: int| 0 <= v < n && !placed[v] implies rank[v] > k by {
        let e = choose|e: int| 0 <= e < edges.len() && edges[e].1 == v && !placed[edges[e].0 as int];
        assert(rank[edges[e].0 as int] < rank[edges[e].1 as int]);
    }
}

proof fn lemma_stuck_cyclic(n: nat, edges: Seq<(usize, usize)>, placed: Seq<bool>, w: int)
    requires
        edges_wf(n, edges),
        placed.len() == n,
        0 <= w < n,
        !placed[w],
        forall|v: int| 0 <= v < n && !placed[v] ==> exists|e: int| 0 <= e < edges.len() && edges[e].1 == v && !placed[edges[e].0 as int],
    ensures
        !acyclic(n, edges),
{
    if acyclic(n, edges) {
        let rank = choose|rank: Seq<nat>| is_ranking(n, edges, rank);
        lemma_stuck_rank(n, edges, placed, rank, rank[w]);
    }
}

impl PropOrderBuilder {
    pub open spec fn wf(&self) -> bool {
        edges_wf(self.nodes@.len(), self.edges@)
    }

    pub fn new() -> (r: Self)
        ensures
            r.wf(),
            r.nodes@.len() == 0,
            r.edges@.len() == 0,
    {
        PropOrderBuilder { nodes: Vec::new(), edges: Vec::new() }
    }

    /// Add a node; returns its index.
    pub fn add_node(&mut self, name: String, is_unit: bool) -> (r: usize)
        requires
            old(self).wf(),
        ensures
            final(self).wf(),
            r == old(self).nodes@.len(),
            final(self).nodes@ == old(self).nodes@.push(PropOrderItem { name, is_unit }),
            final(self).edges@ == old(self).edges@,
    {
        let r = self.nodes.len();
        self.nodes.push(PropOrderItem { name, is_unit });
        r
    }

    /// Add the dependency `from -> to`.
    pub fn add_edge(&mut self, from: usize, to: usize)
        requires
            old(self).wf(),
            from < old(self).nodes@.len(),
            to < old(self).nodes@.len(),
        ensures
            final(self).wf(),
            final(self).nodes@ == old(self).nodes@,
            final(self).edges@ == old(self).edges@.push((from, to)),
    {
        self.edges.push((from, to));
    }

    /// Whether every producer of `v` is placed.
    fn ready(&self, placed: &Vec<bool>, v: usize) -> (r: bool)
        requires
            self.wf(),
            placed@.len() == self.nodes@.len(),
        ensures
            r == forall|e: int| 0 <= e < self.edges@.len() && self.edges@[e].1 == v ==> placed@[self.edges@[e].0 as int],
    {
        let mut e: usize = 0;
        while e < self.edges.len()
            invariant
                self.wf(),
                placed@.len() == self.nodes@.len(),
                e <= self.edges@.len(),
                forall|f: int| 0 <= f < e && self.edges@[f].1 == v ==> placed@[self.edges@[f].0 as int],
            decreases self.edges@.len() - e,
        {
            let (a, b) = self.edges[e];
            if b == v && !placed[a] {
                return false;
            }
            e = e + 1;
        }
        true
    }

    /// Compute a topological order of the graph, or report that it has a
    /// cycle.
    pub fn topo_order(&self) -> (r: Result<(Vec<usize>, Vec<usize>), CyclicGraph>)
        requires
            self.wf(),
        ensures
            r is Err <==> !acyclic(self.nodes@.len() as nat, self.edges@),
            r matches Ok((order, rank)) ==> {
                &&& is_topo_order(self.nodes@.len() as nat, self.edges@, order@)
                &&& rank@.len() == self.nodes@.len()
                &&& forall|k: int| 0 <= k < order@.len() ==> rank@[order@[k] as int] == k
                &&& forall|v: int| 0 <= v < rank@.len() ==> rank@[v] < order@.len() && order@[rank@[v] as int] == v
            },
    {
        let n = self.nodes.len();
        let ghost edges = self.edges@;
        let mut placed: Vec<bool> = vec![false; n];
        let mut rank: Vec<usize> = vec![0usize; n];
        let mut order: Vec<usize> = Vec::new();
        assert(count_true(placed@) == 0) by {
            assert(placed@ =~= Seq::new(n as nat, |i: int| false));
            lemma_count_zero(placed@);
        }
        while order.len() < n
            invariant
                self.wf(),
                edges == self.edges@,
                n == self.nodes@.len(),
                placed@.len() == n,
                rank@.len() == n,
                order@.len() <= n,
                count_true(placed@) == order@.len(),
                forall|k: int| 0 <= k < order@.len() ==> order@[k] < n && placed@[order@[k] as int] && rank@[order@[k] as int] == k,
                forall|v: int| 0 <= v < n && placed@[v] ==> rank@[v] < order@.len() && order@[rank@[v] as int] == v,
                forall|e: int| 0 <= e < edges.len() && placed@[edges[e].1 as int] ==> placed@[edges[e].0 as int] && rank@[edges[e].0 as int] < rank@[edges[e].1 as int],
            decreases n - order@.len(),
        {
            let mut v: usize = 0;
            let mut found = false;
            while v < n && !found
                invariant
                    self.wf(),
                    edges == self.edges@,
                    n == self.nodes@.len(),
                    placed@.len() == n,
                    v <= n,
                    found ==> v < n && !placed@[v as int] && forall|e: int| 0 <= e < edges.len() && edges[e].1 == v ==> placed@[edges[e].0 as int],
                    forall|w: int| 0 <= w < v && !placed@[w] ==> exists|e: int| 0 <= e < edges.len() && edges[e].1 == w && !placed@[edges[e].0 as int],
                decreases n - v + (if found { 0int } else { 1int }),
            {
                if !placed[v] && self.ready(&placed, v) {
                    found = true;
                } else {
                    v = v + 1;
                }
            }
            if !found {
                proof {
                    if forall|w: int| 0 <= w < n ==> placed@[w] {
                        lemma_count_all(placed@);
                    }
                    let w = choose|w: int| 0 <= w < n && !placed@[w];
                    lemma_stuck_cyclic(n as nat, edges, placed@, w);
                }
                return Err(CyclicGraph);
            }
            proof {
                lemma_count_set(placed@, v as int);
            }
            let k = order.len();
            placed.set(v, true);
            rank.set(v, k);
            order.push(v);
        }
        proof {
            lemma_all_placed(placed@, order@, rank@, n as nat);
            assert forall|v: int| 0 <= v < rank@.len() implies rank@[v] < order@.len() && order@[rank@[v] as int] == v by {
                assert(placed@[v]);
            }
            let r = Seq::new(n as nat, |i: int| rank@[i] as nat);
            assert(is_ranking(n as nat, edges, r));
            assert(order@.no_duplicates()) by {
                assert forall|i: int, j: int| 0 <= i < order@.len() && 0 <= j < order@.len() && i != j implies order@[i] != order@[j] by {
                    if order@[i] == order@[j] {
                        assert(rank@[order@[i] as int] == i);
                    }
                }
            }
        }
        Ok((order, rank))
    }
}

proof fn lemma_count_zero(s: Seq<bool>)
    requires
        forall|i: int| 0 <= i < s.len() ==> !s[i],
    ensures
        count_true(s) == 0,
    decreases s.len(),
{
    if s.len() > 0 {
        lemma_count_zero(s.drop_last());
    }
}

/// When `order` holds `n` nodes, all of them are placed.
proof fn lemma_all_placed(placed: Seq<bool>, order: Seq<usize>, rank: Seq<usize>, n: nat)
    requires
        placed.len() == n,
        order.len() == n,
        count_true(placed) == n,
    ensures
        forall|v: int| 0 <= v < n ==> placed[v],
    decreases n,
{
    assert forall|v: int| 0 <= v < n implies placed[v] by {
        if !placed[v] {
            lemma_count_below(placed, v);
        }
    }
}

proof fn lemma_count_below(s: Seq<bool>, i: int)
    requires
        0 <= i < s.len(),
        !s[i],
    ensures
        count_true(s) < s.len(),
    decreases s.len(),
{
    if i < s.len() - 1 {
        lemma_count_below(s.drop_last(), i);
    } else {
        lemma_count_le(s.drop_last());
    }
}

proof fn lemma_count_le(s: Seq<bool>)
    ensures
        count_true(s) <= s.len(),
    decreases s.len(),
{
    if s.len() > 0 {
        lemma_count_le(s.drop_last());
    }
}

/// Facts about a topological order and its position table.
pub open spec fn order_ranked(n: nat, edges: Seq<(usize, usize)>, order: Seq<usize>, rank: Seq<usize>) -> bool {
    &&& is_topo_order(n, edges, order)
    &&& rank.len() == n
    &&& forall|k: int| 0 <= k < n ==> rank[order[k] as int] == k
    &&& forall|v: int| 0 <= v < n ==> rank[v] < n && order[rank[v] as int] == v
}

/// Every node placed before position `k` has its longest path.
pub open spec fn settled(nodes: Seq<PropOrderItem>, edges: Seq<(usize, usize)>, dist: Seq<usize>, rank: Seq<usize>, k: int) -> bool {
    forall|v: int| #![trigger rank[v]] 0 <= v < nodes.len() && rank[v] < k ==> dist_ok(nodes, edges, dist, v) && dist[v] <= rank[v] + 1
}

/// A producer comes before its consumer.
pub proof fn lemma_edge_rank(n: nat, edges: Seq<(usize, usize)>, order: Seq<usize>, rank: Seq<usize>, f: int)
    requires
        edges_wf(n, edges),
        order_ranked(n, edges, order, rank),
        0 <= f < edges.len(),
    ensures
        rank[edges[f].0 as int] < rank[edges[f].1 as int],
{
    let i = rank[edges[f].0 as int] as int;
    let j = rank[edges[f].1 as int] as int;
    assert(order[i] == edges[f].0 && order[j] == edges[f].1);
}

impl PropOrderBuilder {
    /// Longest paths, node by node in `order`.
    fn distances(&self, order: &Vec<usize>, rank: &Vec<usize>) -> (dist: Vec<usize>)
        requires
            self.wf(),
            order_ranked(self.nodes@.len() as nat, self.edges@, order@, rank@),
        ensures
            is_longest_path(self.nodes@, self.edges@, dist@),
            forall|v: int| 0 <= v < dist@.len() ==> dist@[v] <= rank@[v] + 1,
    {
        let n = self.nodes.len();
        let ghost nodes = self.nodes@;
        let ghost edges = self.edges@;
        let mut dist: Vec<usize> = vec![0usize; n];
        let mut k: usize = 0;
        while k < n
            invariant
                self.wf(),
                nodes == self.nodes@,
                edges == self.edges@,
                n == nodes.len(),
                k <= n,
                dist@.len() == n,
                order_ranked(n as nat, edges, order@, rank@),
                settled(nodes, edges, dist@, rank@, k as int),
            decreases n - k,
        {
            let v = order[k];
            let mut d: usize = 0;
            let mut e: usize = 0;
            while e < self.edges.len()
                invariant
                    self.wf(),
                    nodes == self.nodes@,
                    edges == self.edges@,
                    n == nodes.len(),
                    k < n,
                    v == order@[k as int],
                    v < n,
                    rank@[v as int] == k,
                    dist@.len() == n,
                    order_ranked(n as nat, edges, order@, rank@),
                    settled(nodes, edges, dist@, rank@, k as int),
                    e <= edges.len(),
                    d <= k,
                    forall|f: int| 0 <= f < e && edges[f].1 == v ==> d >= dist@[edges[f].0 as int],
                    d == 0 || exists|f: int| 0 <= f < e && edges[f].1 == v && d == dist@[edges[f].0 as int],
                decreases edges.len() - e,
            {
                let (a, b) = self.edges[e];
                if b == v {
                    proof {
                        lemma_edge_rank(n as nat, edges, order@, rank@, e as int);
                        assert(0 <= a < n);
                        assert(settled(nodes, edges, dist@, rank@, k as int));
                        assert(rank@[a as int] < k);
                        assert(dist@[a as int] <= rank@[a as int] + 1);
                    }
                    if dist[a] > d {
                        d = dist[a];
                    }
                }
                e = e + 1;
            }
            let w: usize = if self.nodes[v].is_unit { 1 } else { 0 };
            let ghost old_dist = dist@;
            dist.set(v, d + w);
            proof {
                assert forall|u: int| 0 <= u < n && rank@[u] < k + 1 implies dist_ok(nodes, edges, dist@, u) && dist@[u] <= rank@[u] + 1 by {
                    assert(settled(nodes, edges, old_dist, rank@, k as int));
                    assert forall|f: int| 0 <= f < edges.len() && edges[f].1 == u implies edges[f].0 != v && dist@[edges[f].0 as int] == old_dist[edges[f].0 as int] by {
                        lemma_edge_rank(n as nat, edges, order@, rank@, f);
                    }
                    if u != v {
                        assert(rank@[u] < k);
                        assert(dist_ok(nodes, edges, old_dist, u));
                        if dist@[u] != unit_weight(nodes, u) {
                            let f = choose|f: int| 0 <= f < edges.len() && edges[f].1 == u && old_dist[u] == old_dist[edges[f].0 as int] + unit_weight(nodes, u);
                            assert(dist@[u] == dist@[edges[f].0 as int] + unit_weight(nodes, u));
                        }
                    } else {
                        if d != 0 {
                            let f = choose|f: int| 0 <= f < edges.len() && edges[f].1 == v && d == old_dist[edges[f].0 as int];
                            assert(dist@[u] == dist@[edges[f].0 as int] + unit_weight(nodes, u));
                        }
                    }
                }
            }
            assert(settled(nodes, edges, dist@, rank@, k + 1));
            k = k + 1;
        }
        assert(settled(nodes, edges, dist@, rank@, n as int));
        assert forall|v: int| #![trigger dist@[v]] 0 <= v < n implies dist_ok(nodes, edges, dist@, v) && dist@[v] <= rank@[v] + 1 by {
            assert(rank@[v] < n);
        }
        dist
    }

    /// Compute the evaluation order of the graph and its cycle cost, or
    /// report a cycle.
    pub fn build(self) -> (r: Result<PropOrder, CyclicGraph>)
        requires
            self.wf(),
        ensures
            r is Err <==> !acyclic(self.nodes@.len() as nat, self.edges@),
            r matches Ok(po) ==> po.wf() && po.nodes@ == self.nodes@ && po.edges@ == self.edges@,
    {
        match self.topo_order() {
            Err(e) => Err(e),
            Ok((order, rank)) => {
                let dist = self.distances(&order, &rank);
                let mut max_dist: usize = 0;
                let mut v: usize = 0;
                while v < dist.len()
                    invariant
                        v <= dist@.len(),
                        forall|u: int| 0 <= u < v ==> dist@[u] <= max_dist,
                        v == 0 ==> max_dist == 0,
                        v > 0 ==> exists|u: int| 0 <= u < v && dist@[u] == max_dist,
                    decreases dist@.len() - v,
                {
                    if v == 0 || dist[v] > max_dist {
                        max_dist = dist[v];
                    }
                    v = v + 1;
                }
                let po = PropOrder { nodes: self.nodes, edges: self.edges, order, rank, dist, max_dist };
                assert(order_ranked(po.nodes@.len() as nat, po.edges@, po.order@, po.rank@));
                assert(is_longest_path(po.nodes@, po.edges@, po.dist@));
                Ok(po)
            },
        }
    }
}

impl PropOrder {
    /// `order` is a topological order with `rank` its positions, `dist` the
    /// longest paths, and `max_dist` the largest of them (0 for no nodes).
    pub open spec fn wf(&self) -> bool {
        let n = self.nodes@.len();
        &&& edges_wf(n as nat, self.edges@)
        &&& order_ranked(n as nat, self.edges@, self.order@, self.rank@)
        &&& is_longest_path(self.nodes@, self.edges@, self.dist@)
        &&& forall|v: int| 0 <= v < n ==> self.dist@[v] <= self.max_dist
        &&& (n == 0 ==> self.max_dist == 0)
        &&& (n > 0 ==> exists|v: int| 0 <= v < n && self.dist@[v] == self.max_dist)
    }
}

/// Dataflow acyclicity: the builder yields an order exactly for graphs
/// without cycles, and then every edge goes forward in it.
pub proof fn lemma_order_iff_acyclic(b: PropOrderBuilder, r: Result<PropOrder, CyclicGraph>)
    requires
        b.wf(),
        r is Err <==> !acyclic(b.nodes@.len() as nat, b.edges@),
        r matches Ok(po) ==> po.wf() && po.nodes@ == b.nodes@ && po.edges@ == b.edges@,
    ensures
        r is Ok <==> acyclic(b.nodes@.len() as nat, b.edges@),
        r matches Ok(po) ==> is_topo_order(b.nodes@.len() as nat, b.edges@, po.order@),
{
}

} // verus!
