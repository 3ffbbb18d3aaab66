//! Calls: how a callee's result is folded into the caller, and the walk
//! over the blocks of a function that follows calls into their callees.
use crate::body::{all_below, Body, Statement, Terminator};
use crate::context::{IcxSliceFroBlock, IntroFlowContext, SliceView};
use crate::graph::{FnId, Graph};
use crate::intro_visitor::{
    gather_taint, lemma_stmt_keeps_shape, operand_taint, run_statements, transfer_statements,
};
use crate::merge::{iota, joined, lemma_fold_shape, lemma_joined_shape, lemma_single_pred, merged_entry};
use crate::ownership::{copy_layout, Label, OwnershipLayout};
use crate::{IntroFlowAnalysis, RlcGlobalCtxt};
use std::collections::HashSet;
use vstd::prelude::*;
use vstd::set_lib::{lemma_int_range, lemma_len_subset, set_int_range};

verus! {

broadcast use vstd::std_specs::hash::group_hash_axioms;

/// The facts after a call that is not looked into: what the arguments carry
/// goes to the local that receives the result, and nothing else changes.
pub open spec fn conservative_call(s: SliceView, args: Seq<usize>, dest: int) -> SliceView {
    SliceView {
        taint: s.taint.update(dest, s.taint[dest].union(operand_taint(s.taint, args))),
        ..s
    }
}

/// Folds a call that is not looked into into the working slice.
pub fn call_conservatively(slice: &mut IcxSliceFroBlock, args: &Vec<usize>, dest: usize)
    requires
        dest < old(slice).taint@.len(),
        all_below(args@, old(slice).taint@.len()),
    ensures
        final(slice)@ == conservative_call(old(slice)@, args@, dest as int),
{
    let brought = gather_taint(slice, args);
    slice.taint[dest].absorb(&brought);
    assert(slice@.taint =~= conservative_call(old(slice)@, args@, dest as int).taint);
}

/// The labels that the callee left on those of its parameters for which the
/// caller passed its local `l`.
pub open spec fn param_taint(summary: SliceView, args: Seq<usize>, l: int) -> Set<Label> {
    Set::new(
        |x: Label|
            exists|k: int|
                0 <= k < args.len() && #[trigger] args[k] == l && k + 1 < summary.taint.len()
                    && summary.taint[k + 1].contains(x),
    )
}

/// The labels that the callee left on what it returns, for the local that
/// receives it.
pub open spec fn return_taint(summary: SliceView, dest: int, l: int) -> Set<Label> {
    if l == dest && summary.taint.len() > 0 {
        summary.taint[0]
    } else {
        Set::empty()
    }
}

/// The facts after a call whose callee was analysed, with `summary` the
/// facts on the callee's return: each argument gains the labels of the
/// parameter it was passed for, and the receiving local gains the labels of
/// the callee's local 0 and takes over its length, symbolic type and layout.
pub open spec fn fold_call(s: SliceView, summary: SliceView, args: Seq<usize>, dest: int) -> SliceView {
    let ret = summary.taint.len() > 0;
    SliceView {
        taint: Seq::new(
            s.taint.len(),
            |l: int|
                s.taint[l].union(param_taint(summary, args, l)).union(
                    return_taint(summary, dest, l),
                ),
        ),
        var: s.var,
        len: if ret {
            s.len.update(dest, summary.len[0])
        } else {
            s.len
        },
        ty: if ret {
            s.ty.update(dest, summary.ty[0])
        } else {
            s.ty
        },
        layout: if ret {
            s.layout.update(dest, summary.layout[0])
        } else {
            s.layout
        },
    }
}

/// Folds the result of an analysed callee into the working slice.
pub fn fold_summary(
    slice: &mut IcxSliceFroBlock,
    summary: &IcxSliceFroBlock,
    args: &Vec<usize>,
    dest: usize,
)
    requires
        exists|n: nat| old(slice)@.wf(n) && dest < n && all_below(args@, n),
        exists|m: nat| summary@.wf(m),
    ensures
        final(slice)@ == fold_call(old(slice)@, summary@, args@, dest as int),
{
    let ghost s = slice@;
    let ghost sum = summary@;
    let n = slice.taint.len();
    let m = summary.taint.len();
    assert(slice@.taint.len() == n && sum.taint.len() == m);
    assert(sum.wf(m as nat));
    assert(s.wf(n as nat));
    let mut k: usize = 0;
    assert(slice@.taint =~= Seq::new(
        n as nat,
        |l: int| s.taint[l].union(param_taint(sum, args@.take(0), l)),
    )) by {
        assert forall|l: int| 0 <= l < n implies s.taint[l].union(
            param_taint(sum, args@.take(0), l),
        ) == s.taint[l] by {
            assert(s.taint[l].union(param_taint(sum, args@.take(0), l)) =~= s.taint[l]);
        }
    }
    while k < args.len()
        invariant
            k <= args@.len(),
            sum == summary@,
            sum.taint.len() == m,
            m == summary.taint@.len(),
            s.wf(n as nat),
            dest < n,
            all_below(args@, n as nat),
            slice.taint@.len() == n,
            slice@.var == s.var,
            slice@.len == s.len,
            slice@.ty == s.ty,
            slice@.layout == s.layout,
            slice@.taint == Seq::new(
                n as nat,
                |l: int| s.taint[l].union(param_taint(sum, args@.take(k as int), l)),
            ),
        decreases args@.len() - k,
    {
        let a = args[k];
        let ghost before = slice@.taint;
        if k + 1 < m {
            slice.taint[a].absorb(&summary.taint[k + 1]);
        }
        proof {
            let was = args@.take(k as int);
            let now = args@.take(k + 1);
            assert forall|l: int| 0 <= l < n implies #[trigger] slice@.taint[l] == s.taint[l].union(
                param_taint(sum, now, l),
            ) by {
                let old_p = param_taint(sum, was, l);
                let new_p = param_taint(sum, now, l);
                assert(before[l] == s.taint[l].union(old_p));
                assert forall|x: Label| new_p.contains(x) <==> (old_p.contains(x) || (l == a && k
                    + 1 < m && sum.taint[k + 1].contains(x))) by {
                    if old_p.contains(x) {
                        let j = choose|j: int|
                            0 <= j < was.len() && #[trigger] was[j] == l && j + 1
                                < sum.taint.len() && sum.taint[j + 1].contains(x);
                        assert(now[j] == l);
                    }
                    if l == a && k + 1 < m && sum.taint[k + 1].contains(x) {
                        assert(now[k as int] == l);
                    }
                    if new_p.contains(x) {
                        let j = choose|j: int|
                            0 <= j < now.len() && #[trigger] now[j] == l && j + 1
                                < sum.taint.len() && sum.taint[j + 1].contains(x);
                        if j < k {
                            assert(was[j] == l);
                        }
                    }
                }
                if k + 1 < m {
                    assert(sum.taint[k + 1] == summary.taint@[k + 1]@);
                }
                assert(slice@.taint[l] =~= s.taint[l].union(new_p));
            }
            assert(slice@.taint =~= Seq::new(
                n as nat,
                |l: int| s.taint[l].union(param_taint(sum, now, l)),
            ));
        }
        k += 1;
    }
    assert(args@.take(k as int) =~= args@);
    let ghost mid = slice@.taint;
    if m > 0 {
        assert(sum.taint[0] == summary.taint@[0]@);
        assert(sum.layout[0] == summary.layout@[0]@);
        slice.taint[dest].absorb(&summary.taint[0]);
        slice.len[dest] = summary.len[0];
        slice.ty[dest] = summary.ty[0];
        let layout = copy_layout(&summary.layout[0]);
        slice.layout[dest] = layout;
    }
    proof {
        let want = fold_call(s, sum, args@, dest as int);
        assert forall|l: int| 0 <= l < n implies #[trigger] slice@.taint[l] == want.taint[l] by {
            assert(mid[l] == s.taint[l].union(param_taint(sum, args@, l)));
            if l == dest && m > 0 {
                assert(slice@.taint[l] == mid[l].union(sum.taint[0]));
            } else {
                assert(slice@.taint[l] == mid[l]);
            }
            assert(slice@.taint[l] =~= want.taint[l]);
        }
        assert(slice@.taint =~= want.taint);
        assert(slice@.len =~= want.len);
        assert(slice@.ty =~= want.ty);
        assert(slice@.layout =~= want.layout);
    }
}

/// The facts on return from a function: nothing known, joined with the exit
/// facts of those of the first `upto` blocks of the traversal order that
/// end in a return.
pub open spec fn summary_fold(
    exits: Seq<SliceView>,
    body: Body,
    topo: Seq<usize>,
    upto: int,
) -> SliceView
    decreases upto,
{
    if upto <= 0 {
        SliceView::blank(body.local_decls as nat)
    } else {
        let acc = summary_fold(exits, body, topo, upto - 1);
        let b = topo[upto - 1];
        if body.basic_blocks@[b as int].terminator is Return {
            joined(acc, exits[b as int])
        } else {
            acc
        }
    }
}

/// The facts on return from a function, all its returning blocks taken
/// together.
pub open spec fn summary_of(exits: Seq<SliceView>, body: Body, topo: Seq<usize>) -> SliceView {
    summary_fold(exits, body, topo, topo.len() as int)
}

pub proof fn lemma_summary_shape(exits: Seq<SliceView>, body: Body, topo: Seq<usize>, upto: int)
    ensures
        summary_fold(exits, body, topo, upto).wf(body.local_decls as nat),
    decreases upto,
{
    if upto > 0 {
        lemma_summary_shape(exits, body, topo, upto - 1);
        lemma_joined_shape(
            summary_fold(exits, body, topo, upto - 1),
            exits[topo[upto - 1] as int],
            body.local_decls as nat,
        );
    }
}

impl Terminator {
    pub fn is_return(&self) -> (r: bool)
        ensures
            r == (*self is Return),
    {
        match self {
            Terminator::Return => true,
            _ => false,
        }
    }
}

/// The facts on return from the function whose store is `icx`.
pub fn summarize(icx: &mut IntroFlowContext, body: &Body, graph: &Graph) -> (r: IcxSliceFroBlock)
    requires
        old(icx).wf(body.basic_blocks@.len(), body.local_decls as nat),
        all_below(graph.topo@, body.basic_blocks@.len()),
    ensures
        *final(icx) == *old(icx),
        r@ == summary_of(old(icx).exits(), *body, graph.topo@),
{
    let ghost exits = icx.exits();
    let mut slice = IcxSliceFroBlock::new_for_block_0(body.local_decls);
    let mut j: usize = 0;
    while j < graph.topo.len()
        invariant
            *icx == *old(icx),
            exits == icx.exits(),
            icx.wf(body.basic_blocks@.len(), body.local_decls as nat),
            all_below(graph.topo@, body.basic_blocks@.len()),
            j <= graph.topo@.len(),
            slice@ == summary_fold(exits, *body, graph.topo@, j as int),
        decreases graph.topo@.len() - j,
    {
        let b = graph.topo[j];
        proof {
            lemma_summary_shape(exits, *body, graph.topo@, j as int);
        }
        if body.basic_blocks[b].terminator.is_return() {
            let x = IcxSliceFroBlock::new_out(icx, b);
            assert(x@ == exits[b as int]);
            assert(x@.wf(body.local_decls as nat));
            slice.join(&x);
        }
        j += 1;
    }
    slice
}

/// What a store holds: the entry facts and the exit facts of each block.
pub struct StoreState {
    pub entry: Seq<SliceView>,
    pub exit: Seq<SliceView>,
}

/// A store for `blocks` blocks and `locals` locals in which nothing is known.
pub open spec fn blank_store(blocks: nat, locals: nat) -> StoreState {
    StoreState {
        entry: Seq::new(blocks, |b: int| SliceView::blank(locals)),
        exit: Seq::new(blocks, |b: int| SliceView::blank(locals)),
    }
}

impl StoreState {
    /// `blocks` rows on either side, each with `locals` slots.
    pub open spec fn wf(self, blocks: nat, locals: nat) -> bool {
        &&& self.entry.len() == blocks
        &&& self.exit.len() == blocks
        &&& forall|b: int| 0 <= b < blocks ==> (#[trigger] self.entry[b]).wf(locals)
        &&& forall|b: int| 0 <= b < blocks ==> (#[trigger] self.exit[b]).wf(locals)
    }
}

impl IntroFlowContext {
    /// What the store holds.
    pub open spec fn store_view(self) -> StoreState {
        StoreState { entry: self.entries(), exit: self.exits() }
    }
}

/// The functions below `n` that were not entered.
pub open spec fn unvisited(n: nat, visited: Set<FnId>) -> Set<int> {
    Set::new(|f: int| 0 <= f < n && !visited.contains(f as usize))
}

proof fn lemma_unvisited_finite(n: nat, visited: Set<FnId>)
    ensures
        unvisited(n, visited).finite(),
        unvisited(n, visited).len() <= n,
{
    lemma_int_range(0, n as int);
    lemma_len_subset(unvisited(n, visited), set_int_range(0, n as int));
}

proof fn lemma_unvisited_insert(n: nat, visited: Set<FnId>, f: FnId)
    requires
        f < n <= usize::MAX,
        !visited.contains(f),
    ensures
        unvisited(n, visited.insert(f)).len() + 1 == unvisited(n, visited).len(),
{
    lemma_unvisited_finite(n, visited);
    assert(unvisited(n, visited).contains(f as int));
    assert(unvisited(n, visited.insert(f)) =~= unvisited(n, visited).remove(f as int));
}

proof fn lemma_unvisited_mono(n: nat, a: Set<FnId>, b: Set<FnId>)
    requires
        a.subset_of(b),
    ensures
        unvisited(n, b).len() <= unvisited(n, a).len(),
{
    lemma_unvisited_finite(n, a);
    lemma_len_subset(unvisited(n, b), unvisited(n, a));
}

/// Whether a call to `callee` is looked into: the callee has a body and a
/// graph, it was not entered yet, and the nesting of calls may go one deeper.
pub open spec fn analyzable(rcx: RlcGlobalCtxt, callee: FnId, visited: Set<FnId>, depth: nat) -> bool {
    &&& callee < rcx.bodies@.len()
    &&& rcx.mir_graph@.contains_key(callee)
    &&& !visited.contains(callee)
    &&& depth > 0
}

/// The facts after a call, and the functions entered once it is done. A
/// callee that is looked into is entered, analysed from scratch, and its
/// result folded in; any other is taken conservatively.
pub open spec fn call_spec(
    rcx: RlcGlobalCtxt,
    s: SliceView,
    callee: FnId,
    args: Seq<usize>,
    dest: usize,
    visited: Set<FnId>,
    depth: nat,
) -> (SliceView, Set<FnId>)
    decreases depth, 0nat, 0nat,
{
    if analyzable(rcx, callee, visited, depth) {
        let done = analyze_spec(rcx, callee, visited.insert(callee), (depth - 1) as nat);
        let summary = summary_of(done.0.exit, rcx.bodies@[callee as int], rcx.mir_graph@[callee].topo@);
        (fold_call(s, summary, args, dest as int), done.1)
    } else {
        (conservative_call(s, args, dest as int), visited)
    }
}

/// The store of function `f` after all its blocks were walked, and the
/// functions entered by then. `depth` bounds how deep calls may nest; from
/// the number of the program's functions on it never binds.
pub open spec fn analyze_spec(rcx: RlcGlobalCtxt, f: FnId, visited: Set<FnId>, depth: nat) -> (
    StoreState,
    Set<FnId>,
)
    decreases depth, 2nat, 0nat,
{
    walk_spec(rcx, f, rcx.mir_graph@[f].topo@.len() as int, visited, depth)
}

/// The store of function `f` after the first `upto` blocks of its traversal
/// order were walked, and the functions entered by then.
pub open spec fn walk_spec(
    rcx: RlcGlobalCtxt,
    f: FnId,
    upto: int,
    visited: Set<FnId>,
    depth: nat,
) -> (StoreState, Set<FnId>)
    decreases depth, 1nat, upto,
{
    let body = rcx.bodies@[f as int];
    let g = rcx.mir_graph@[f];
    if upto <= 0 {
        (blank_store(body.basic_blocks@.len(), body.local_decls as nat), visited)
    } else {
        let before = walk_spec(rcx, f, upto - 1, visited, depth);
        let b = g.topo@[upto - 1];
        let block = body.basic_blocks@[b as int];
        let entry = merged_entry(before.0.exit, g.pred()[b as int], g.topo@, body.local_decls as nat);
        let mid = run_statements(
            entry,
            block.statements@,
            block.statements@.len() as int,
            rcx.adt_owner.layouts@,
        );
        let after = match block.terminator {
            Terminator::Call { callee, args, dest, targets } => call_spec(
                rcx,
                mid,
                callee,
                args@,
                dest,
                before.1,
                depth,
            ),
            _ => (mid, before.1),
        };
        (
            StoreState {
                entry: before.0.entry.update(b as int, entry),
                exit: before.0.exit.update(b as int, after.0),
            },
            after.1,
        )
    }
}

/// A run of statements keeps the number of slots.
pub proof fn lemma_run_shape(
    s: SliceView,
    stmts: Seq<Statement>,
    upto: int,
    layouts: Seq<OwnershipLayout>,
    n: nat,
)
    requires
        s.wf(n),
        upto <= stmts.len(),
        forall|k: int| 0 <= k < stmts.len() ==> (#[trigger] stmts[k]).within(n),
    ensures
        run_statements(s, stmts, upto, layouts).wf(n),
    decreases upto,
{
    if upto > 0 {
        lemma_run_shape(s, stmts, upto - 1, layouts, n);
        lemma_stmt_keeps_shape(
            run_statements(s, stmts, upto - 1, layouts),
            stmts[upto - 1],
            layouts,
            n,
        );
    }
}

/// The merge policy gives a slot for each local.
pub proof fn lemma_merged_shape(exits: Seq<SliceView>, preds: Seq<usize>, topo: Seq<usize>, n: nat)
    ensures
        merged_entry(exits, preds, topo, n).wf(n),
{
    let none = Seq::<usize>::empty();
    let blank = SliceView::blank(n);
    lemma_fold_shape(exits, preds, topo, none, topo.len() as int, blank, n);
    let first = crate::merge::fold_preds(exits, preds, topo, none, topo.len() as int, blank);
    lemma_fold_shape(exits, preds, iota(exits.len()), topo, exits.len() as int, first, n);
}

impl<'a> IntroFlowAnalysis<'a> {
    /// The analysis is set up for function `self.did` of a program in which
    /// every function with a graph can be walked.
    pub open spec fn wf(self) -> bool {
        &&& self.rcx.ready()
        &&& self.rcx.walkable(self.did)
        &&& self.bound_to(self.rcx, self.did)
        &&& self.icx.wf(self.body.basic_blocks@.len(), self.body.local_decls as nat)
    }

    /// Handles a call at the end of the block at hand.
    fn visit_call(&mut self, callee: FnId, args: &Vec<usize>, dest: usize, Ghost(depth): Ghost<nat>)
        requires
            old(self).wf(),
            old(self).icx_slice@.wf(old(self).body.local_decls as nat),
            dest < old(self).body.local_decls,
            all_below(args@, old(self).body.local_decls as nat),
            unvisited(old(self).rcx.bodies@.len(), old(self).ref_fn_unique@).len() <= depth,
        ensures
            final(self).wf(),
            final(self).rcx == old(self).rcx,
            final(self).did == old(self).did,
            final(self).icx == old(self).icx,
            final(self).icx_slice@.wf(old(self).body.local_decls as nat),
            (final(self).icx_slice@, final(self).ref_fn_unique@) == call_spec(
                *old(self).rcx,
                old(self).icx_slice@,
                callee,
                args@,
                dest,
                old(self).ref_fn_unique@,
                depth,
            ),
            old(self).ref_fn_unique@.subset_of(final(self).ref_fn_unique@),
        decreases depth, 0nat,
    {
        let rcx = self.rcx;
        let ghost n = rcx.bodies@.len();
        let ghost visited = self.ref_fn_unique@;
        let ghost s = self.icx_slice@;
        if callee < rcx.bodies.len() && rcx.mir_graph.contains_key(&callee)
            && !self.ref_fn_unique.contains(&callee) {
            proof {
                assert(unvisited(n, visited).contains(callee as int));
                lemma_unvisited_finite(n, visited);
                lemma_unvisited_insert(n, visited, callee);
            }
            let mut unique: HashSet<FnId> = HashSet::new();
            std::mem::swap(&mut self.ref_fn_unique, &mut unique);
            unique.insert(callee);
            let mut sub = IntroFlowAnalysis::new(rcx, callee, unique);
            assert(rcx.walkable(callee));
            sub.walk(Ghost((depth - 1) as nat));
            let summary = summarize(&mut sub.icx, sub.body, sub.graph);
            self.ref_fn_unique = sub.ref_fn_unique;
            proof {
                lemma_summary_shape(
                    sub.icx.exits(),
                    *sub.body,
                    sub.graph.topo@,
                    sub.graph.topo@.len() as int,
                );
            }
            fold_summary(&mut self.icx_slice, &summary, args, dest);
        } else {
            call_conservatively(&mut self.icx_slice, args, dest);
        }
    }

    /// Walks the blocks of the function in traversal order: resolves each
    /// block's entry facts, simulates it, and writes its exit facts back.
    pub(crate) fn walk(&mut self, Ghost(depth): Ghost<nat>)
        requires
            old(self).wf(),
            old(self).icx.store_view() == blank_store(
                old(self).body.basic_blocks@.len(),
                old(self).body.local_decls as nat,
            ),
            unvisited(old(self).rcx.bodies@.len(), old(self).ref_fn_unique@).len() <= depth,
        ensures
            final(self).wf(),
            final(self).rcx == old(self).rcx,
            final(self).did == old(self).did,
            (final(self).icx.store_view(), final(self).ref_fn_unique@) == analyze_spec(
                *old(self).rcx,
                old(self).did,
                old(self).ref_fn_unique@,
                depth,
            ),
            old(self).ref_fn_unique@.subset_of(final(self).ref_fn_unique@),
        decreases depth, 1nat,
    {
        let rcx = self.rcx;
        let body = self.body;
        let graph = self.graph;
        let v_len = body.local_decls;
        let ghost n = rcx.bodies@.len();
        let ghost visited0 = self.ref_fn_unique@;
        let ghost did = self.did;
        let mut j: usize = 0;
        while j < graph.topo.len()
            invariant
                self.wf(),
                self.rcx == rcx,
                self.body == body,
                self.graph == graph,
                self.did == did,
                v_len == body.local_decls,
                n == rcx.bodies@.len(),
                j <= graph.topo@.len(),
                (self.icx.store_view(), self.ref_fn_unique@) == walk_spec(
                    *rcx,
                    did,
                    j as int,
                    visited0,
                    depth,
                ),
                visited0.subset_of(self.ref_fn_unique@),
                unvisited(n, visited0).len() <= depth,
            decreases graph.topo@.len() - j,
        {
            let b = graph.topo[j];
            let ghost before = self.icx.store_view();
            let ghost seen = self.ref_fn_unique@;
            let ghost preds = graph.pred()[b as int];
            let ghost want_entry = merged_entry(before.exit, preds, graph.topo@, v_len as nat);
            proof {
                lemma_merged_shape(before.exit, preds, graph.topo@, v_len as nat);
                lemma_unvisited_mono(n, visited0, seen);
            }
            if graph.pre[b].len() == 1 {
                let p = graph.pre[b][0];
                proof {
                    assert(preds =~= seq![p]);
                    assert(graph.pred()[b as int][0] == p);
                    assert(before.exit[p as int] == self.icx.exit_view(p as int));
                    lemma_single_pred(before.exit, p, graph.topo@, v_len as nat);
                }
                self.icx.derive_from_pre_node(p, b);
            } else {
                let entry = self.icx.resolve_entry(graph, b, v_len);
                self.icx.derive_entry_from_icx_slice(entry, b);
            }
            assert(self.icx.entry_view(b as int) == want_entry);
            assert(self.icx.exits() =~= before.exit);
            assert(self.icx.entries() =~= before.entry.update(b as int, want_entry));
            self.icx_slice = IcxSliceFroBlock::new_in(&mut self.icx, b);
            let block = &body.basic_blocks[b];
            transfer_statements(&mut self.icx_slice, &block.statements, &rcx.adt_owner);
            proof {
                lemma_run_shape(
                    want_entry,
                    block.statements@,
                    block.statements@.len() as int,
                    rcx.adt_owner.layouts@,
                    v_len as nat,
                );
            }
            match &block.terminator {
                Terminator::Call { callee, args, dest, targets } => {
                    self.visit_call(*callee, args, *dest, Ghost(depth));
                },
                _ => {},
            }
            let ghost after = self.icx_slice@;
            let done = self.icx_slice.clone();
            self.icx.derive_from_icx_slice(done, b);
            proof {
                assert(self.icx.entries() =~= before.entry.update(b as int, want_entry));
                assert(self.icx.exits() =~= before.exit.update(b as int, after));
            }
            j += 1;
        }
    }

    /// Analyses the function from scratch: walks its blocks in traversal
    /// order and fills the store.
    pub fn visit(&mut self)
        requires
            old(self).wf(),
            old(self).icx.store_view() == blank_store(
                old(self).body.basic_blocks@.len(),
                old(self).body.local_decls as nat,
            ),
        ensures
            final(self).wf(),
            final(self).rcx == old(self).rcx,
            final(self).did == old(self).did,
            (final(self).icx.store_view(), final(self).ref_fn_unique@) == analyze_spec(
                *old(self).rcx,
                old(self).did,
                old(self).ref_fn_unique@,
                old(self).rcx.bodies@.len(),
            ),
            old(self).ref_fn_unique@.subset_of(final(self).ref_fn_unique@),
    {
        proof {
            lemma_unvisited_finite(self.rcx.bodies@.len(), self.ref_fn_unique@);
        }
        self.walk(Ghost(self.rcx.bodies@.len()));
    }
}

/// A call to a function that was entered already is not looked into: what
/// the arguments carry goes to the receiving local, no other fact changes,
/// and no function is entered.
pub proof fn lemma_entered_callee_falls_back(
    rcx: RlcGlobalCtxt,
    s: SliceView,
    callee: FnId,
    args: Seq<usize>,
    dest: usize,
    visited: Set<FnId>,
    depth: nat,
)
    requires
        visited.contains(callee),
    ensures
        call_spec(rcx, s, callee, args, dest, visited, depth) == (
            conservative_call(s, args, dest as int),
            visited,
        ),
{
}

/// A function that was entered stays entered while blocks are walked.
pub proof fn lemma_walk_grows(rcx: RlcGlobalCtxt, f: FnId, upto: int, visited: Set<FnId>, depth: nat)
    ensures
        visited.subset_of(walk_spec(rcx, f, upto, visited, depth).1),
    decreases depth, upto,
{
    if upto > 0 {
        lemma_walk_grows(rcx, f, upto - 1, visited, depth);
        let before = walk_spec(rcx, f, upto - 1, visited, depth);
        let body = rcx.bodies@[f as int];
        let g = rcx.mir_graph@[f];
        let b = g.topo@[upto - 1];
        let block = body.basic_blocks@[b as int];
        let entry = merged_entry(before.0.exit, g.pred()[b as int], g.topo@, body.local_decls as nat);
        let mid = run_statements(
            entry,
            block.statements@,
            block.statements@.len() as int,
            rcx.adt_owner.layouts@,
        );
        match block.terminator {
            Terminator::Call { callee, args, dest, targets } => {
                let after = call_spec(rcx, mid, callee, args@, dest, before.1, depth);
                if analyzable(rcx, callee, before.1, depth) {
                    let entered = before.1.insert(callee);
                    lemma_walk_grows(
                        rcx,
                        callee,
                        rcx.mir_graph@[callee].topo@.len() as int,
                        entered,
                        (depth - 1) as nat,
                    );
                    let done = analyze_spec(rcx, callee, entered, (depth - 1) as nat);
                    assert(entered.subset_of(done.1));
                    assert(after.1 == done.1);
                } else {
                    assert(after.1 == before.1);
                }
                assert(walk_spec(rcx, f, upto, visited, depth).1 == after.1);
            },
            _ => {
                assert(walk_spec(rcx, f, upto, visited, depth).1 == before.1);
            },
        }
    }
}

/// Recursion ends in the conservative fallback: while function `a` is
/// entered, a call to `a` from any block of any function `f` that is walked
/// meanwhile, after any number `upto` of its blocks, is not looked into.
pub proof fn lemma_recursive_call_falls_back(
    rcx: RlcGlobalCtxt,
    a: FnId,
    f: FnId,
    upto: int,
    visited: Set<FnId>,
    depth: nat,
    s: SliceView,
    args: Seq<usize>,
    dest: usize,
)
    requires
        visited.contains(a),
    ensures
        call_spec(rcx, s, a, args, dest, walk_spec(rcx, f, upto, visited, depth).1, depth) == (
            conservative_call(s, args, dest as int),
            walk_spec(rcx, f, upto, visited, depth).1,
        ),
{
    lemma_walk_grows(rcx, f, upto, visited, depth);
}

/// A call keeps the number of slots.
pub proof fn lemma_call_shape(
    rcx: RlcGlobalCtxt,
    s: SliceView,
    callee: FnId,
    args: Seq<usize>,
    dest: usize,
    visited: Set<FnId>,
    depth: nat,
    n: nat,
)
    requires
        s.wf(n),
        dest < n,
    ensures
        call_spec(rcx, s, callee, args, dest, visited, depth).0.wf(n),
{
}

/// The store keeps its shape while blocks are walked: a row for each block
/// on either side, a slot for each local in every row.
pub proof fn lemma_walk_shape(rcx: RlcGlobalCtxt, f: FnId, upto: int, visited: Set<FnId>, depth: nat)
    requires
        rcx.walkable(f),
        upto <= rcx.mir_graph@[f].topo@.len(),
    ensures
        walk_spec(rcx, f, upto, visited, depth).0.wf(
            rcx.bodies@[f as int].basic_blocks@.len(),
            rcx.bodies@[f as int].local_decls as nat,
        ),
    decreases upto,
{
    if upto > 0 {
        lemma_walk_shape(rcx, f, upto - 1, visited, depth);
        let before = walk_spec(rcx, f, upto - 1, visited, depth);
        let body = rcx.bodies@[f as int];
        let g = rcx.mir_graph@[f];
        let n = body.local_decls as nat;
        let b = g.topo@[upto - 1];
        let block = body.basic_blocks@[b as int];
        let entry = merged_entry(before.0.exit, g.pred()[b as int], g.topo@, n);
        lemma_merged_shape(before.0.exit, g.pred()[b as int], g.topo@, n);
        let mid = run_statements(
            entry,
            block.statements@,
            block.statements@.len() as int,
            rcx.adt_owner.layouts@,
        );
        assert(block.within(n, body.basic_blocks@.len()));
        lemma_run_shape(
            entry,
            block.statements@,
            block.statements@.len() as int,
            rcx.adt_owner.layouts@,
            n,
        );
        match block.terminator {
            Terminator::Call { callee, args, dest, targets } => {
                lemma_call_shape(rcx, mid, callee, args@, dest, before.1, depth, n);
            },
            _ => {},
        }
    }
}

/// A block that was walked keeps its rows while the blocks after it in the
/// order are walked.
pub proof fn lemma_walk_frame(
    rcx: RlcGlobalCtxt,
    f: FnId,
    i: int,
    upto: int,
    visited: Set<FnId>,
    depth: nat,
)
    requires
        rcx.walkable(f),
        0 <= i < upto <= rcx.mir_graph@[f].topo@.len(),
    ensures
        walk_spec(rcx, f, upto, visited, depth).0.entry[rcx.mir_graph@[f].topo@[i] as int]
            == walk_spec(rcx, f, i + 1, visited, depth).0.entry[rcx.mir_graph@[f].topo@[i] as int],
        walk_spec(rcx, f, upto, visited, depth).0.exit[rcx.mir_graph@[f].topo@[i] as int]
            == walk_spec(rcx, f, i + 1, visited, depth).0.exit[rcx.mir_graph@[f].topo@[i] as int],
    decreases upto,
{
    if upto > i + 1 {
        lemma_walk_frame(rcx, f, i, upto - 1, visited, depth);
        lemma_walk_shape(rcx, f, upto - 1, visited, depth);
        let topo = rcx.mir_graph@[f].topo@;
        assert(topo[upto - 1] != topo[i]);
    }
}

/// Taint flows forward along the order: once a function is analysed, every
/// label that a block has for a local on its exit is there on the entry of
/// each block that it leads to and that stands behind it in the order.
pub proof fn lemma_entry_keeps_labels(
    rcx: RlcGlobalCtxt,
    f: FnId,
    visited: Set<FnId>,
    depth: nat,
    i: int,
    j: int,
    l: int,
    x: Label,
)
    requires
        rcx.walkable(f),
        0 <= i < j < rcx.mir_graph@[f].topo@.len(),
        rcx.mir_graph@[f].pred()[rcx.mir_graph@[f].topo@[j] as int].contains(
            rcx.mir_graph@[f].topo@[i],
        ),
        0 <= l < rcx.bodies@[f as int].local_decls,
        analyze_spec(rcx, f, visited, depth).0.exit[rcx.mir_graph@[f].topo@[i] as int].taint[l].contains(
            x,
        ),
    ensures
        analyze_spec(rcx, f, visited, depth).0.entry[rcx.mir_graph@[f].topo@[j] as int].taint[l].contains(
            x,
        ),
{
    let g = rcx.mir_graph@[f];
    let topo = g.topo@;
    let n = rcx.bodies@[f as int].local_decls as nat;
    let p = topo[i];
    let b = topo[j];
    let len = topo.len() as int;
    lemma_walk_frame(rcx, f, i, len, visited, depth);
    lemma_walk_frame(rcx, f, i, j, visited, depth);
    lemma_walk_frame(rcx, f, j, len, visited, depth);
    lemma_walk_shape(rcx, f, j, visited, depth);
    let before = walk_spec(rcx, f, j, visited, depth);
    crate::merge::lemma_merge_keeps_labels(before.0.exit, g.pred()[b as int], topo, n, p, l, x);
}

/// Single-predecessor passthrough along the order: once a function is
/// analysed, a block whose one predecessor stands before it in the order
/// has on entry, for every fact, what that predecessor has on exit.
pub proof fn lemma_single_pred_entry(
    rcx: RlcGlobalCtxt,
    f: FnId,
    visited: Set<FnId>,
    depth: nat,
    i: int,
    j: int,
)
    requires
        rcx.walkable(f),
        0 <= i < j < rcx.mir_graph@[f].topo@.len(),
        rcx.mir_graph@[f].pred()[rcx.mir_graph@[f].topo@[j] as int] == seq![
            rcx.mir_graph@[f].topo@[i],
        ],
    ensures
        analyze_spec(rcx, f, visited, depth).0.entry[rcx.mir_graph@[f].topo@[j] as int]
            == analyze_spec(rcx, f, visited, depth).0.exit[rcx.mir_graph@[f].topo@[i] as int],
{
    let g = rcx.mir_graph@[f];
    let topo = g.topo@;
    let n = rcx.bodies@[f as int].local_decls as nat;
    let p = topo[i];
    let b = topo[j];
    let len = topo.len() as int;
    lemma_walk_frame(rcx, f, i, len, visited, depth);
    lemma_walk_frame(rcx, f, i, j, visited, depth);
    lemma_walk_frame(rcx, f, j, len, visited, depth);
    lemma_walk_shape(rcx, f, j, visited, depth);
    let before = walk_spec(rcx, f, j, visited, depth);
    assert(before.0.exit.len() == rcx.bodies@[f as int].basic_blocks.len());
    lemma_single_pred(before.0.exit, p, topo, n);
}

} // verus!
