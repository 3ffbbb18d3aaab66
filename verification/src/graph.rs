//! Control-flow graphs, and what it means for an order of blocks to be a
//! traversal order.
use std::collections::HashMap;
use vstd::prelude::*;

verus! {

/// A function, by its number in the program.
pub type FnId = usize;

pub type MirGraph = HashMap<FnId, Graph>;

pub type ToPo = Vec<usize>;

pub type Edges = Vec<Vec<usize>>;

/// The lists of an adjacency structure as sequences.
pub open spec fn edges_view(e: Edges) -> Seq<Seq<usize>> {
    Seq::new(e@.len(), |b: int| e@[b]@)
}

/// Every block that an edge list names exists.
pub open spec fn in_range(adj: Seq<Seq<usize>>) -> bool {
    forall|u: int, k: int|
        0 <= u < adj.len() && 0 <= k < adj[u].len() ==> (#[trigger] adj[u][k]) < adj.len()
}

/// There is an edge from `u` to `v`.
pub open spec fn edge(adj: Seq<Seq<usize>>, u: int, v: int) -> bool {
    0 <= u < adj.len() && 0 <= v < adj.len() && adj[u].contains(v as usize)
}

/// `p` is a walk along edges: at least one block, each joined to the next.
pub open spec fn is_path(adj: Seq<Seq<usize>>, p: Seq<int>) -> bool {
    &&& p.len() >= 1
    &&& 0 <= p[0] < adj.len()
    &&& forall|i: int| 0 <= i < p.len() - 1 ==> edge(adj, #[trigger] p[i], p[i + 1])
}

/// Some walk leads from `a` to `b`; every block reaches itself.
pub open spec fn reaches(adj: Seq<Seq<usize>>, a: int, b: int) -> bool {
    exists|p: Seq<int>| is_path(adj, p) && p[0] == a && p.last() == b
}

/// `r` lists the edges of `adj` turned round.
pub open spec fn transposed(adj: Seq<Seq<usize>>, r: Seq<Seq<usize>>) -> bool {
    &&& r.len() == adj.len()
    &&& in_range(r)
    &&& forall|u: int, v: int|
        0 <= u < adj.len() && 0 <= v < adj.len() ==> (#[trigger] adj[u].contains(v as usize)
            <==> #[trigger] r[v].contains(u as usize))
}

/// `y` stands in `order` somewhere behind position `i`.
pub open spec fn later(order: Seq<usize>, i: int, y: usize) -> bool {
    exists|j: int| i < j < order.len() && order[j] == y
}

/// `order` is a traversal order of what `root` reaches in `adj`: it holds
/// those blocks and no others, each once, and an edge leads forward in it
/// unless it closes a loop.
pub open spec fn valid_order(adj: Seq<Seq<usize>>, root: int, order: Seq<usize>) -> bool {
    &&& order.no_duplicates()
    &&& forall|b: usize| b < adj.len() ==> (#[trigger] order.contains(b) <==> reaches(adj, root, b as int))
    &&& forall|i: int| 0 <= i < order.len() ==> (#[trigger] order[i]) < adj.len()
    &&& forall|i: int, k: int|
        0 <= i < order.len() && 0 <= k < adj[order[i] as int].len() ==> later(
            order,
            i,
            #[trigger] adj[order[i] as int][k],
        ) || reaches(adj, adj[order[i] as int][k] as int, order[i] as int)
}

/// The control-flow graph of one function: for each block the blocks it
/// leads to, the blocks that lead to it, and the order in which the blocks
/// are visited.
#[derive(Debug)]
pub struct Graph {
    pub e: Edges,
    pub pre: Edges,
    pub topo: ToPo,
}

impl Default for Graph {
    fn default() -> (r: Self)
        ensures
            r.e@.len() == 0,
            r.pre@.len() == 0,
            r.topo@.len() == 0,
    {
        Self { e: Vec::new(), pre: Vec::new(), topo: Vec::new() }
    }
}

/// `len` empty edge lists.
pub fn empty_edges(len: usize) -> (r: Edges)
    ensures
        r@.len() == len,
        forall|b: int| 0 <= b < len ==> (#[trigger] r@[b])@.len() == 0,
{
    let mut r: Edges = Vec::new();
    let mut b: usize = 0;
    while b < len
        invariant
            b <= len,
            r@.len() == b,
            forall|c: int| 0 <= c < b ==> (#[trigger] r@[c])@.len() == 0,
        decreases len - b,
    {
        r.push(Vec::new());
        b += 1;
    }
    r
}

/// A copy of an adjacency structure, list for list.
pub fn copy_edges(e: &Edges) -> (r: Edges)
    ensures
        edges_view(r) == edges_view(*e),
{
    let r = e.clone();
    assert forall|b: int| 0 <= b < e@.len() implies (#[trigger] r@[b])@ == e@[b]@ by {
        assert(r@[b]@ =~= e@[b]@);
    }
    assert(edges_view(r) =~= edges_view(*e));
    r
}

impl Graph {
    /// The successor lists.
    pub open spec fn succ(self) -> Seq<Seq<usize>> {
        edges_view(self.e)
    }

    /// The predecessor lists.
    pub open spec fn pred(self) -> Seq<Seq<usize>> {
        edges_view(self.pre)
    }

    /// Every edge names blocks of the graph, and the predecessor lists are
    /// the successor lists turned round.
    pub open spec fn wf(self) -> bool {
        &&& in_range(self.succ())
        &&& transposed(self.succ(), self.pred())
    }

    /// A graph of `len` blocks without edges and without an order.
    pub fn new(len: usize) -> (r: Self)
        ensures
            r.succ().len() == len,
            r.pred().len() == len,
            forall|b: int| 0 <= b < len ==> (#[trigger] r.succ()[b]).len() == 0,
            forall|b: int| 0 <= b < len ==> (#[trigger] r.pred()[b]).len() == 0,
            r.topo@.len() == 0,
            r.wf(),
    {
        Graph { e: empty_edges(len), pre: empty_edges(len), topo: Vec::new() }
    }

    pub fn get_edges(&self) -> (r: &Edges)
        ensures
            *r == self.e,
    {
        &self.e
    }

    pub fn get_edges_mut(&mut self) -> (r: &mut Edges)
        ensures
            *r == old(self).e,
            final(self).e == *final(r),
            final(self).pre == old(self).pre,
            final(self).topo == old(self).topo,
    {
        &mut self.e
    }

    pub fn get_pre(&self) -> (r: &Edges)
        ensures
            *r == self.pre,
    {
        &self.pre
    }

    pub fn get_pre_mut(&mut self) -> (r: &mut Edges)
        ensures
            *r == old(self).pre,
            final(self).pre == *final(r),
            final(self).e == old(self).e,
            final(self).topo == old(self).topo,
    {
        &mut self.pre
    }

    pub fn get_topo(&self) -> (r: &ToPo)
        ensures
            *r == self.topo,
    {
        &self.topo
    }

    pub fn get_topo_mut(&mut self) -> (r: &mut ToPo)
        ensures
            *r == old(self).topo,
            final(self).topo == *final(r),
            final(self).e == old(self).e,
            final(self).pre == old(self).pre,
    {
        &mut self.topo
    }
}

impl Clone for Graph {
    fn clone(&self) -> (r: Self)
        ensures
            r.succ() == self.succ(),
            r.pred() == self.pred(),
            r.topo@ == self.topo@,
    {
        let topo = self.topo.clone();
        assert(topo@ =~= self.topo@);
        Graph { e: copy_edges(&self.e), pre: copy_edges(&self.pre), topo }
    }
}

/// Every block reaches itself.
pub proof fn lemma_reaches_self(adj: Seq<Seq<usize>>, u: int)
    requires
        0 <= u < adj.len(),
    ensures
        reaches(adj, u, u),
{
    let p = seq![u];
    assert(is_path(adj, p) && p[0] == u && p.last() == u);
}

/// What reaches the tail of an edge reaches its head.
pub proof fn lemma_reaches_step(adj: Seq<Seq<usize>>, a: int, u: int, v: int)
    requires
        reaches(adj, a, u),
        edge(adj, u, v),
    ensures
        reaches(adj, a, v),
{
    let p = choose|p: Seq<int>| is_path(adj, p) && p[0] == a && p.last() == u;
    let q = p.push(v);
    assert forall|i: int| 0 <= i < q.len() - 1 implies edge(adj, #[trigger] q[i], q[i + 1]) by {
        if i < p.len() - 1 {
            assert(q[i] == p[i] && q[i + 1] == p[i + 1]);
        }
    }
    assert(is_path(adj, q) && q[0] == a && q.last() == v);
}

/// A set of blocks that holds `a` and is closed under edges holds whatever
/// `a` reaches.
pub proof fn lemma_closed_holds_reached(adj: Seq<Seq<usize>>, s: Set<int>, a: int, b: int)
    requires
        s.contains(a),
        forall|u: int, v: int| s.contains(u) && edge(adj, u, v) ==> s.contains(v),
        reaches(adj, a, b),
    ensures
        s.contains(b),
{
    let p = choose|p: Seq<int>| is_path(adj, p) && p[0] == a && p.last() == b;
    lemma_path_stays(adj, s, p, p.len() - 1);
}

proof fn lemma_path_stays(adj: Seq<Seq<usize>>, s: Set<int>, p: Seq<int>, i: int)
    requires
        is_path(adj, p),
        s.contains(p[0]),
        forall|u: int, v: int| s.contains(u) && edge(adj, u, v) ==> s.contains(v),
        0 <= i < p.len(),
    ensures
        s.contains(p[i]),
    decreases i,
{
    if i > 0 {
        lemma_path_stays(adj, s, p, i - 1);
        assert(edge(adj, p[i - 1], p[i - 1 + 1]));
    }
}

/// Order validity, edge by edge: in a traversal order an edge that is part
/// of no loop leads from an earlier block to a later one.
pub proof fn lemma_forward_edges(adj: Seq<Seq<usize>>, root: int, order: Seq<usize>, i: int, j: int)
    requires
        valid_order(adj, root, order),
        0 <= i < order.len(),
        0 <= j < order.len(),
        edge(adj, order[i] as int, order[j] as int),
        !reaches(adj, order[j] as int, order[i] as int),
    ensures
        i < j,
{
    let u = order[i] as int;
    let k = choose|k: int| 0 <= k < adj[u].len() && adj[u][k] == order[j];
    assert(later(order, i, adj[u][k]));
    let at = choose|at: int| i < at < order.len() && order[at] == order[j];
    assert(at == j);
}

} // verus!
