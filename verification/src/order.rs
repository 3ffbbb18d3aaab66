//! From a body to its control-flow graph: the edges between the blocks, and
//! the order in which the blocks are visited.
use crate::body::{
    all_below, cfg_succ, check_all_below, live_targets, BasicBlock, Body, Terminator,
};
use crate::graph::{
    edge, edges_view, empty_edges, in_range, is_path, later, lemma_closed_holds_reached,
    lemma_reaches_self, lemma_reaches_step, reaches, transposed, valid_order, Edges, Graph,
};
use vstd::prelude::*;

verus! {

/// How many blocks are not marked.
pub open spec fn unseen(seen: Seq<bool>) -> nat
    decreases seen.len(),
{
    if seen.len() == 0 {
        0
    } else {
        unseen(seen.drop_last()) + if seen.last() {
            0nat
        } else {
            1nat
        }
    }
}

proof fn lemma_unseen_mono(a: Seq<bool>, b: Seq<bool>)
    requires
        a.len() == b.len(),
        forall|i: int| 0 <= i < a.len() && a[i] ==> b[i],
    ensures
        unseen(b) <= unseen(a),
    decreases a.len(),
{
    if a.len() > 0 {
        lemma_unseen_mono(a.drop_last(), b.drop_last());
    }
}

proof fn lemma_unseen_strict(a: Seq<bool>, b: Seq<bool>, u: int)
    requires
        a.len() == b.len(),
        forall|i: int| 0 <= i < a.len() && a[i] ==> b[i],
        0 <= u < a.len(),
        !a[u],
        b[u],
    ensures
        unseen(b) < unseen(a),
    decreases a.len(),
{
    if u == a.len() - 1 {
        lemma_unseen_mono(a.drop_last(), b.drop_last());
    } else {
        lemma_unseen_strict(a.drop_last(), b.drop_last(), u);
    }
}

/// Block `g` is entered and not yet left.
pub open spec fn gray(seen: Seq<bool>, post: Seq<usize>, g: int) -> bool {
    0 <= g < seen.len() && seen[g] && !post.contains(g as usize)
}

/// `y` stands in `post` somewhere before position `i`.
pub open spec fn earlier(post: Seq<usize>, i: int, y: usize) -> bool {
    exists|j: int| 0 <= j < i && post[j] == y
}

/// The edge from `post[i]` to `y` is accounted for: `y` was left before, or
/// the edge closes a loop.
pub open spec fn edge_ok(
    adj: Seq<Seq<usize>>,
    seen: Seq<bool>,
    post: Seq<usize>,
    i: int,
    y: usize,
) -> bool {
    &&& y < seen.len()
    &&& seen[y as int]
    &&& (earlier(post, i, y) || reaches(adj, y as int, post[i] as int))
}

/// What holds of a block once it is left.
pub open spec fn entry_ok(
    adj: Seq<Seq<usize>>,
    seen: Seq<bool>,
    post: Seq<usize>,
    root: int,
    i: int,
) -> bool {
    &&& post[i] < adj.len()
    &&& seen[post[i] as int]
    &&& reaches(adj, root, post[i] as int)
    &&& forall|k: int|
        0 <= k < adj[post[i] as int].len() ==> edge_ok(
            adj,
            seen,
            post,
            i,
            #[trigger] adj[post[i] as int][k],
        )
}

/// What the search keeps true between any two steps.
pub open spec fn dfs_inv(adj: Seq<Seq<usize>>, seen: Seq<bool>, post: Seq<usize>, root: int) -> bool {
    &&& seen.len() == adj.len()
    &&& post.no_duplicates()
    &&& forall|i: int| 0 <= i < post.len() ==> #[trigger] entry_ok(adj, seen, post, root, i)
}

proof fn lemma_entry_stable(
    adj: Seq<Seq<usize>>,
    seen: Seq<bool>,
    post: Seq<usize>,
    seen2: Seq<bool>,
    post2: Seq<usize>,
    root: int,
    i: int,
)
    requires
        0 <= i < post.len() <= post2.len(),
        entry_ok(adj, seen, post, root, i),
        forall|j: int| 0 <= j < post.len() ==> post2[j] == post[j],
        seen.len() == adj.len(),
        seen.len() == seen2.len(),
        forall|x: int| 0 <= x < seen.len() && seen[x] ==> seen2[x],
    ensures
        entry_ok(adj, seen2, post2, root, i),
{
    assert(post2[i] == post[i]);
    assert(seen2[post[i] as int]);
    assert forall|k: int| 0 <= k < adj[post2[i] as int].len() implies edge_ok(
        adj,
        seen2,
        post2,
        i,
        #[trigger] adj[post2[i] as int][k],
    ) by {
        let y = adj[post[i] as int][k];
        assert(edge_ok(adj, seen, post, i, y));
        assert(seen2[y as int]);
        if earlier(post, i, y) {
            let j = choose|j: int| 0 <= j < i && post[j] == y;
            assert(post2[j] == y);
            assert(earlier(post2, i, y));
        }
    }
}

fn visit(e: &Edges, u: usize, seen: &mut Vec<bool>, post: &mut Vec<usize>, Ghost(root): Ghost<int>)
    requires
        in_range(edges_view(*e)),
        u < e@.len(),
        dfs_inv(edges_view(*e), old(seen)@, old(post)@, root),
        !old(seen)@[u as int],
        reaches(edges_view(*e), root, u as int),
        forall|g: int| gray(old(seen)@, old(post)@, g) ==> reaches(edges_view(*e), g, u as int),
    ensures
        dfs_inv(edges_view(*e), final(seen)@, final(post)@, root),
        old(post)@.len() <= final(post)@.len(),
        forall|j: int| 0 <= j < old(post)@.len() ==> final(post)@[j] == old(post)@[j],
        forall|x: int| 0 <= x < old(seen)@.len() && old(seen)@[x] ==> final(seen)@[x],
        final(seen)@[u as int],
        forall|g: int| gray(final(seen)@, final(post)@, g) <==> gray(old(seen)@, old(post)@, g),
    decreases unseen(old(seen)@),
{
    let ghost adj = edges_view(*e);
    let ghost seen0 = seen@;
    let ghost post0 = post@;
    seen.set(u, true);
    proof {
        lemma_unseen_strict(seen0, seen@, u as int);
        assert forall|i: int| 0 <= i < post@.len() implies #[trigger] entry_ok(
            adj,
            seen@,
            post@,
            root,
            i,
        ) by {
            lemma_entry_stable(adj, seen0, post0, seen@, post@, root, i);
        }
        assert(!post0.contains(u)) by {
            if post0.contains(u) {
                let i = choose|i: int| 0 <= i < post0.len() && post0[i] == u;
                assert(entry_ok(adj, seen0, post0, root, i));
            }
        }
    }
    let mut k: usize = 0;
    while k < e[u].len()
        invariant
            adj == edges_view(*e),
            seen0 == old(seen)@,
            post0 == old(post)@,
            in_range(adj),
            u < e@.len(),
            seen0.len() == adj.len(),
            0 <= k <= e@[u as int]@.len(),
            dfs_inv(adj, seen@, post@, root),
            post0.len() <= post@.len(),
            forall|j: int| 0 <= j < post0.len() ==> post@[j] == post0[j],
            forall|x: int| 0 <= x < seen0.len() && seen0[x] ==> seen@[x],
            seen@[u as int],
            !seen0[u as int],
            forall|g: int| #[trigger] gray(seen@, post@, g) <==> (gray(seen0, post0, g) || g == u),
            forall|j: int| 0 <= j < k ==> seen@[(#[trigger] e@[u as int]@[j]) as int],
            unseen(seen@) < unseen(seen0),
            reaches(adj, root, u as int),
            forall|g: int| gray(seen0, post0, g) ==> reaches(adj, g, u as int),
        decreases e@[u as int]@.len() - k,
    {
        let v = e[u][k];
        assert(adj[u as int][k as int] == v);
        assert(v < adj.len());
        if !seen[v] {
            let ghost seen_b = seen@;
            proof {
                assert(edge(adj, u as int, v as int));
                lemma_reaches_step(adj, root, u as int, v as int);
                assert forall|g: int| gray(seen@, post@, g) implies reaches(adj, g, v as int) by {
                    if g == u {
                        lemma_reaches_self(adj, u as int);
                    }
                    lemma_reaches_step(adj, g, u as int, v as int);
                }
            }
            visit(e, v, seen, post, Ghost(root));
            proof {
                lemma_unseen_mono(seen_b, seen@);
            }
        }
        k += 1;
    }
    let ghost post_b = post@;
    assert(!post_b.contains(u)) by {
        assert(gray(seen@, post_b, u as int));
    }
    post.push(u);
    proof {
        let i_last = post_b.len() as int;
        assert forall|i: int| 0 <= i < post@.len() implies #[trigger] entry_ok(
            adj,
            seen@,
            post@,
            root,
            i,
        ) by {
            if i < i_last {
                lemma_entry_stable(adj, seen@, post_b, seen@, post@, root, i);
            } else {
                assert forall|k2: int| 0 <= k2 < adj[u as int].len() implies edge_ok(
                    adj,
                    seen@,
                    post@,
                    i,
                    #[trigger] adj[u as int][k2],
                ) by {
                    let y = adj[u as int][k2];
                    assert(y == e@[u as int]@[k2]);
                    assert(seen@[y as int]);
                    if post_b.contains(y) {
                        let j = choose|j: int| 0 <= j < post_b.len() && post_b[j] == y;
                        assert(post@[j] == y);
                        assert(earlier(post@, i, y));
                    } else {
                        assert(gray(seen@, post_b, y as int));
                        if y == u {
                            lemma_reaches_self(adj, u as int);
                        }
                    }
                }
            }
        }
        assert(post@.no_duplicates()) by {
            assert forall|a: int, b: int| 0 <= a < post@.len() && 0 <= b < post@.len() && a != b implies post@[a] != post@[b] by {
                if a < i_last && b < i_last {
                    assert(post_b[a] != post_b[b]);
                } else if a < i_last {
                    assert(post_b[a] == post@[a]);
                } else {
                    assert(post_b[b] == post@[b]);
                }
            }
        }
        assert(seen0.len() == e.len());
        assert forall|g: int| gray(seen@, post@, g) <==> gray(seen0, post0, g) by {
            if gray(seen@, post@, g) {
                assert(!post_b.contains(g as usize)) by {
                    if post_b.contains(g as usize) {
                        let j = choose|j: int| 0 <= j < post_b.len() && post_b[j] == g as usize;
                        assert(post@[j] == g as usize);
                    }
                }
                assert(gray(seen@, post_b, g));
                assert(post@[i_last] == u);
            }
            if gray(seen0, post0, g) {
                assert(gray(seen@, post_b, g));
                assert(g != u);
                assert(!post@.contains(g as usize)) by {
                    if post@.contains(g as usize) {
                        let j = choose|j: int| 0 <= j < post@.len() && post@[j] == g as usize;
                        if j < i_last {
                            assert(post_b[j] == g as usize);
                            assert(post_b.contains(g as usize));
                        } else {
                            assert(post@[j] == u);
                        }
                    }
                }
            }
        }
    }
}

/// The blocks that block 0 reaches, in reverse postorder of a depth-first
/// search that takes each block's successors in list order.
pub fn reverse_postorder(e: &Edges) -> (order: Vec<usize>)
    requires
        in_range(edges_view(*e)),
        e@.len() > 0,
    ensures
        valid_order(edges_view(*e), 0, order@),
{
    let ghost adj = edges_view(*e);
    let n = e.len();
    let mut seen: Vec<bool> = Vec::new();
    let mut b: usize = 0;
    while b < n
        invariant
            b <= n,
            seen@.len() == b,
            forall|x: int| 0 <= x < b ==> !seen@[x],
        decreases n - b,
    {
        seen.push(false);
        b += 1;
    }
    let mut post: Vec<usize> = Vec::new();
    proof {
        lemma_reaches_self(adj, 0);
    }
    visit(e, 0, &mut seen, &mut post, Ghost(0int));
    let mut order: Vec<usize> = Vec::new();
    let mut k: usize = post.len();
    while k > 0
        invariant
            k <= post@.len(),
            order@.len() == post@.len() - k,
            forall|j: int| 0 <= j < order@.len() ==> order@[j] == post@[post@.len() - 1 - j],
        decreases k,
    {
        k -= 1;
        order.push(post[k]);
    }
    proof {
        let len = post@.len() as int;
        assert forall|x: int| 0 <= x < adj.len() && seen@[x] implies post@.contains(x as usize) by {
            if !post@.contains(x as usize) {
                assert(gray(seen@, post@, x));
                assert(gray(Seq::new(n as nat, |x: int| false), Seq::<usize>::empty(), x));
            }
        }
        let s = Set::new(|x: int| 0 <= x < adj.len() && post@.contains(x as usize));
        assert forall|u: int, v: int| s.contains(u) && edge(adj, u, v) implies s.contains(v) by {
            let i = choose|i: int| 0 <= i < len && post@[i] == u as usize;
            assert(entry_ok(adj, seen@, post@, 0, i));
            let k2 = choose|k2: int| 0 <= k2 < adj[u].len() && adj[u][k2] == v as usize;
            assert(edge_ok(adj, seen@, post@, i, adj[u][k2]));
        }
        assert(s.contains(0));
        assert forall|b: usize| b < adj.len() implies (#[trigger] order@.contains(b) <==> reaches(
            adj,
            0,
            b as int,
        )) by {
            if order@.contains(b) {
                let j = choose|j: int| 0 <= j < len && order@[j] == b;
                assert(entry_ok(adj, seen@, post@, 0, len - 1 - j));
            }
            if reaches(adj, 0, b as int) {
                lemma_closed_holds_reached(adj, s, 0, b as int);
                let i = choose|i: int| 0 <= i < len && post@[i] == b;
                assert(order@[len - 1 - i] == b);
            }
        }
        assert forall|i: int| 0 <= i < order@.len() implies (#[trigger] order@[i]) < adj.len() by {
            assert(entry_ok(adj, seen@, post@, 0, len - 1 - i));
        }
        assert forall|i: int, k2: int|
            0 <= i < order@.len() && 0 <= k2 < adj[order@[i] as int].len() implies later(
            order@,
            i,
            #[trigger] adj[order@[i] as int][k2],
        ) || reaches(adj, adj[order@[i] as int][k2] as int, order@[i] as int) by {
            let y = adj[order@[i] as int][k2];
            assert(entry_ok(adj, seen@, post@, 0, len - 1 - i));
            assert(edge_ok(adj, seen@, post@, len - 1 - i, y));
            if earlier(post@, len - 1 - i, y) {
                let j = choose|j: int| 0 <= j < len - 1 - i && post@[j] == y;
                assert(order@[len - 1 - j] == y);
            }
        }
        assert(order@.no_duplicates()) by {
            assert forall|a: int, b: int| 0 <= a < len && 0 <= b < len && a != b implies order@[a] != order@[b] by {
                assert(post@[len - 1 - a] != post@[len - 1 - b]);
            }
        }
    }
    order
}

/// Every block that a terminator of `body` names exists.
pub open spec fn targets_in_range(body: Body) -> bool {
    forall|b: int|
        0 <= b < body.basic_blocks@.len() ==> all_below(
            (#[trigger] body.basic_blocks@[b]).terminator.targets(),
            body.basic_blocks@.len(),
        )
}

/// Whether the search for an order has a block to start from: the body has
/// an entry block, and it is no cleanup block.
pub open spec fn entry_live(body: Body) -> bool {
    body.basic_blocks@.len() > 0 && !body.basic_blocks@[0].is_cleanup
}

/// `topo` is a traversal order for `body` over the edges `adj`: a valid
/// order from block 0 where the body has a live entry block, and empty
/// otherwise.
pub open spec fn traversal(body: Body, adj: Seq<Seq<usize>>, topo: Seq<usize>) -> bool {
    if entry_live(body) {
        valid_order(adj, 0, topo)
    } else {
        topo.len() == 0
    }
}

/// `g` is the control-flow graph of `body`, with its traversal order.
pub open spec fn graph_of(body: Body, g: Graph) -> bool {
    &&& g.succ() == cfg_succ(body)
    &&& g.wf()
    &&& traversal(body, g.succ(), g.topo@)
}

impl Terminator {
    /// The list of the blocks that control may go on to, if there is one.
    pub fn successors(&self) -> (r: Option<&Vec<usize>>)
        ensures
            match r {
                Some(v) => v@ == self.targets(),
                None => self.targets().len() == 0,
            },
    {
        match self {
            Terminator::Goto { targets } => Some(targets),
            Terminator::Call { callee, args, dest, targets } => Some(targets),
            Terminator::Return => None,
        }
    }
}

proof fn lemma_push_contains(s: Seq<usize>, x: usize, y: usize)
    ensures
        s.push(x).contains(y) <==> (s.contains(y) || x == y),
{
    if s.push(x).contains(y) {
        let j = choose|j: int| 0 <= j < s.push(x).len() && s.push(x)[j] == y;
        if j < s.len() {
            assert(s[j] == y);
        }
    }
    if s.contains(y) {
        let j = choose|j: int| 0 <= j < s.len() && s[j] == y;
        assert(s.push(x)[j] == y);
    }
    if x == y {
        assert(s.push(x)[s.len() as int] == y);
    }
}

/// Adds `x` at the end of list `at`.
fn push_at(edges: &mut Edges, at: usize, x: usize)
    requires
        at < old(edges)@.len(),
    ensures
        edges_view(*final(edges)) == edges_view(*old(edges)).update(
            at as int,
            edges_view(*old(edges))[at as int].push(x),
        ),
{
    edges[at].push(x);
    assert(edges_view(*edges) =~= edges_view(*old(edges)).update(
        at as int,
        edges_view(*old(edges))[at as int].push(x),
    ));
}

/// The successor and predecessor lists of `body`.
pub fn body_edges(body: &Body) -> (r: (Edges, Edges))
    requires
        targets_in_range(*body),
    ensures
        edges_view(r.0) == cfg_succ(*body),
        in_range(edges_view(r.0)),
        transposed(edges_view(r.0), edges_view(r.1)),
{
    let n = body.basic_blocks.len();
    let mut e = empty_edges(n);
    let mut pre = empty_edges(n);
    let ghost blocks = body.basic_blocks@;
    let mut u: usize = 0;
    while u < n
        invariant
            n == body.basic_blocks@.len(),
            blocks == body.basic_blocks@,
            targets_in_range(*body),
            u <= n,
            edges_view(e).len() == n,
            edges_view(pre).len() == n,
            in_range(edges_view(e)),
            in_range(edges_view(pre)),
            forall|a: int|
                0 <= a < u ==> #[trigger] edges_view(e)[a] == live_targets(
                    blocks,
                    blocks[a].terminator.targets(),
                ),
            forall|a: int| u <= a < n ==> (#[trigger] edges_view(e)[a]).len() == 0,
            forall|a: int, b: int|
                0 <= a < n && 0 <= b < n ==> (#[trigger] edges_view(e)[a].contains(b as usize)
                    <==> #[trigger] edges_view(pre)[b].contains(a as usize)),
        decreases n - u,
    {
        match body.basic_blocks[u].terminator.successors() {
            Some(targets) => {
                assert(all_below(blocks[u as int].terminator.targets(), n as nat));
                let mut k: usize = 0;
                while k < targets.len()
                    invariant
                        n == body.basic_blocks@.len(),
                        blocks == body.basic_blocks@,
                        u < n,
                        k <= targets@.len(),
                        all_below(targets@, n as nat),
                        edges_view(e).len() == n,
                        edges_view(pre).len() == n,
                        in_range(edges_view(e)),
                        in_range(edges_view(pre)),
                        forall|a: int|
                            0 <= a < u ==> #[trigger] edges_view(e)[a] == live_targets(
                                blocks,
                                blocks[a].terminator.targets(),
                            ),
                        edges_view(e)[u as int] == live_targets(blocks, targets@.take(k as int)),
                        forall|a: int| u < a < n ==> (#[trigger] edges_view(e)[a]).len() == 0,
                        forall|a: int, b: int|
                            0 <= a < n && 0 <= b < n ==> (#[trigger] edges_view(e)[a].contains(
                                b as usize,
                            ) <==> #[trigger] edges_view(pre)[b].contains(a as usize)),
                    decreases targets@.len() - k,
                {
                    let t = targets[k];
                    assert(targets@.take(k + 1).drop_last() =~= targets@.take(k as int));
                    assert(targets@.take(k + 1).last() == t);
                    if !body.basic_blocks[t].is_cleanup {
                        let ghost e0 = edges_view(e);
                        let ghost pre0 = edges_view(pre);
                        push_at(&mut e, u, t);
                        push_at(&mut pre, t, u);
                        proof {
                            let e1 = edges_view(e);
                            let pre1 = edges_view(pre);
                            assert forall|a: int, b: int| 0 <= a < n && 0 <= b < n implies (
                            #[trigger] e1[a].contains(b as usize) <==> #[trigger] pre1[b].contains(
                                a as usize,
                            )) by {
                                lemma_push_contains(e0[u as int], t, b as usize);
                                lemma_push_contains(pre0[t as int], u, a as usize);
                                assert(e0[a].contains(b as usize) <==> pre0[b].contains(a as usize));
                            }
                            assert(in_range(e1)) by {
                                assert forall|a: int, j: int|
                                    0 <= a < e1.len() && 0 <= j < e1[a].len() implies (
                                #[trigger] e1[a][j]) < e1.len() by {
                                    if a == u && j == e0[a].len() {
                                    } else {
                                        assert(e1[a][j] == e0[a][j]);
                                    }
                                }
                            }
                            assert(in_range(pre1)) by {
                                assert forall|a: int, j: int|
                                    0 <= a < pre1.len() && 0 <= j < pre1[a].len() implies (
                                #[trigger] pre1[a][j]) < pre1.len() by {
                                    if a == t && j == pre0[a].len() {
                                    } else {
                                        assert(pre1[a][j] == pre0[a][j]);
                                    }
                                }
                            }
                        }
                    }
                    k += 1;
                }
                assert(targets@.take(k as int) =~= targets@);
            },
            None => {},
        }
        u += 1;
    }
    assert(edges_view(e) =~= cfg_succ(*body));
    (e, pre)
}

/// A body on its way to a control-flow graph with a traversal order.
#[derive(Clone, Debug)]
pub struct NodeOrder<'a> {
    pub body: &'a Body,
    pub graph: Graph,
}

impl<'a> NodeOrder<'a> {
    /// `body` with a graph of as many blocks, without edges or order yet.
    pub fn new(body: &'a Body) -> (r: Self)
        ensures
            r.body == body,
            r.graph.succ().len() == body.basic_blocks@.len(),
            r.graph.pred().len() == body.basic_blocks@.len(),
            forall|b: int| 0 <= b < r.graph.succ().len() ==> (#[trigger] r.graph.succ()[b]).len() == 0,
            forall|b: int| 0 <= b < r.graph.pred().len() ==> (#[trigger] r.graph.pred()[b]).len() == 0,
            r.graph.topo@.len() == 0,
    {
        let len = body.basic_blocks.len();
        Self { body, graph: Graph::new(len) }
    }

    #[inline(always)]
    pub fn body(&self) -> (r: &'a Body)
        ensures
            r == self.body,
    {
        self.body
    }

    #[inline(always)]
    pub fn graph(&self) -> (r: &Graph)
        ensures
            *r == self.graph,
    {
        &self.graph
    }

    #[inline(always)]
    pub fn graph_mut(&mut self) -> (r: &mut Graph)
        ensures
            *r == old(self).graph,
            final(self).graph == *final(r),
            final(self).body == old(self).body,
    {
        &mut self.graph
    }

    /// Fills in the edges between the blocks of the body, leaving out those
    /// that lead into cleanup blocks.
    pub fn collect_edges(&mut self)
        requires
            targets_in_range(*old(self).body),
        ensures
            final(self).body == old(self).body,
            final(self).graph.topo == old(self).graph.topo,
            final(self).graph.succ() == cfg_succ(*old(self).body),
            final(self).graph.wf(),
    {
        let (e, pre) = body_edges(self.body);
        self.graph.e = e;
        self.graph.pre = pre;
    }

    /// Fills in the order in which the blocks are to be visited.
    pub fn topo_order(&mut self)
        requires
            in_range(old(self).graph.succ()),
            old(self).graph.succ().len() == old(self).body.basic_blocks@.len(),
        ensures
            final(self).body == old(self).body,
            final(self).graph.e == old(self).graph.e,
            final(self).graph.pre == old(self).graph.pre,
            traversal(*old(self).body, old(self).graph.succ(), final(self).graph.topo@),
    {
        if self.body.basic_blocks.len() > 0 && !self.body.basic_blocks[0].is_cleanup {
            let topo = reverse_postorder(&self.graph.e);
            self.graph.topo = topo;
        } else {
            self.graph.topo = Vec::new();
        }
    }

    /// The control-flow graph of `body`, with its traversal order.
    pub fn build(body: &'a Body) -> (r: Graph)
        requires
            targets_in_range(*body),
        ensures
            graph_of(*body, r),
    {
        let mut order = NodeOrder::new(body);
        order.collect_edges();
        order.topo_order();
        order.graph
    }
}

proof fn lemma_live_targets(blocks: Seq<BasicBlock>, targets: Seq<usize>, v: usize)
    ensures
        live_targets(blocks, targets).contains(v) <==> (targets.contains(v) && !blocks[v as int].is_cleanup),
    decreases targets.len(),
{
    if targets.len() > 0 {
        let rest = targets.drop_last();
        lemma_live_targets(blocks, rest, v);
        lemma_push_contains(live_targets(blocks, rest), targets.last(), v);
        lemma_push_contains(rest, targets.last(), v);
        assert(rest.push(targets.last()) =~= targets);
    }
}

/// An edge of a body's graph is a step that its tail's terminator allows
/// into a block that is no cleanup block.
pub proof fn lemma_cfg_edge(body: Body, u: int, v: int)
    requires
        0 <= u < body.basic_blocks@.len(),
        0 <= v < body.basic_blocks@.len(),
    ensures
        edge(cfg_succ(body), u, v) <==> (body.basic_blocks@[u].terminator.targets().contains(
            v as usize,
        ) && !body.basic_blocks@[v].is_cleanup),
{
    assert(body.basic_blocks@.len() == body.basic_blocks.len());
    lemma_live_targets(body.basic_blocks@, body.basic_blocks@[u].terminator.targets(), v as usize);
}

/// The traversal order of a body names no cleanup block: it holds exactly
/// the blocks that the entry block reaches over edges that avoid them.
pub proof fn lemma_order_skips_cleanup(body: Body, g: Graph, i: int)
    requires
        graph_of(body, g),
        0 <= i < g.topo@.len(),
    ensures
        g.topo@[i] < body.basic_blocks@.len(),
        !body.basic_blocks@[g.topo@[i] as int].is_cleanup,
        reaches(cfg_succ(body), 0, g.topo@[i] as int),
{
    let adj = cfg_succ(body);
    let b = g.topo@[i];
    assert(g.topo@.contains(b));
    assert(b < adj.len());
    assert(reaches(adj, 0, b as int));
    let p = choose|p: Seq<int>| is_path(adj, p) && p[0] == 0 && p.last() == b as int;
    if p.len() > 1 {
        let j = p.len() - 2;
        assert(edge(adj, p[j], p[j + 1]));
        assert(p[j + 1] == p.last());
        lemma_cfg_edge(body, p[j], b as int);
    }
}

/// The graph `g` has the shape that walking `body` needs: a predecessor
/// list for each block, and an order that names blocks of the body, none
/// twice.
pub open spec fn fits(body: Body, g: Graph) -> bool {
    &&& g.pred().len() == body.basic_blocks@.len()
    &&& in_range(g.pred())
    &&& all_below(g.topo@, body.basic_blocks@.len())
    &&& g.topo@.no_duplicates()
}

/// Whether `xs`, whose entries are below `bound`, names nothing twice.
pub fn no_repeats(xs: &Vec<usize>, bound: usize) -> (r: bool)
    requires
        all_below(xs@, bound as nat),
    ensures
        r == xs@.no_duplicates(),
{
    let mut seen: Vec<bool> = Vec::new();
    let mut b: usize = 0;
    while b < bound
        invariant
            b <= bound,
            seen@.len() == b,
            forall|v: int| 0 <= v < b ==> !seen@[v],
        decreases bound - b,
    {
        seen.push(false);
        b += 1;
    }
    let mut k: usize = 0;
    while k < xs.len()
        invariant
            k <= xs@.len(),
            all_below(xs@, bound as nat),
            seen@.len() == bound,
            forall|v: int|
                0 <= v < bound ==> (#[trigger] seen@[v] <==> exists|j: int|
                    0 <= j < k && xs@[j] == v),
            forall|i: int, j: int| 0 <= i < j < k ==> xs@[i] != xs@[j],
        decreases xs@.len() - k,
    {
        let x = xs[k];
        if seen[x] {
            proof {
                let j = choose|j: int| 0 <= j < k && xs@[j] == x;
                assert(xs@[j] == xs@[k as int] && j != k);
            }
            return false;
        }
        let ghost before = seen@;
        seen.set(x, true);
        proof {
            assert forall|v: int| 0 <= v < bound implies (#[trigger] seen@[v] <==> exists|j: int|
                0 <= j < k + 1 && xs@[j] == v) by {
                if v == x {
                    assert(xs@[k as int] == v);
                } else {
                    if before[v] {
                        let j = choose|j: int| 0 <= j < k && xs@[j] == v;
                        assert(0 <= j < k + 1 && xs@[j] == v);
                    }
                    if exists|j: int| 0 <= j < k + 1 && xs@[j] == v {
                        let j = choose|j: int| 0 <= j < k + 1 && xs@[j] == v;
                        assert(j < k);
                    }
                }
            }
            assert forall|i: int, j: int| 0 <= i < j < k + 1 implies xs@[i] != xs@[j] by {
                if j == k && xs@[i] == x {
                    assert(before[x as int]);
                }
            }
        }
        k += 1;
    }
    true
}

/// Whether every entry of every list of `edges` is below the number of
/// lists.
pub fn check_in_range(edges: &Edges) -> (r: bool)
    ensures
        r == in_range(edges_view(*edges)),
{
    let n = edges.len();
    let mut u: usize = 0;
    while u < n
        invariant
            n == edges@.len(),
            u <= n,
            forall|a: int, k: int|
                0 <= a < u && 0 <= k < edges_view(*edges)[a].len() ==> (#[trigger] edges_view(
                    *edges,
                )[a][k]) < n,
        decreases n - u,
    {
        if !check_all_below(&edges[u], n) {
            proof {
                let k = choose|k: int| 0 <= k < edges@[u as int]@.len() && !(edges@[u as int]@[k] < n);
                assert(edges_view(*edges)[u as int][k] >= n);
            }
            return false;
        }
        assert(edges_view(*edges)[u as int] == edges@[u as int]@);
        u += 1;
    }
    true
}

impl Graph {
    /// Whether the graph has the shape that walking `body` needs.
    pub fn check_fits(&self, body: &Body) -> (r: bool)
        ensures
            r == fits(*body, *self),
    {
        let n = body.basic_blocks.len();
        assert(self.pred().len() == self.pre@.len());
        self.pre.len() == n && check_in_range(&self.pre) && check_all_below(&self.topo, n)
            && no_repeats(&self.topo, n)
    }
}

/// The control-flow graph of a body fits it.
pub proof fn lemma_graph_of_fits(body: Body, g: Graph)
    requires
        graph_of(body, g),
    ensures
        fits(body, g),
{
}

} // verus!
