//! What the walk of a whole function is bound to find for some shapes of
//! code, whatever else the function does.
use crate::body::{all_below, BasicBlock, LenChange, Statement, Terminator};
use crate::context::SliceView;
use crate::graph::FnId;
use crate::inter_visitor::{
    analyze_spec, call_spec, lemma_merged_shape, lemma_walk_frame, lemma_walk_shape, walk_spec,
};
use crate::intro_visitor::{
    lemma_stmt_keeps_shape, operand_taint, run_statements, source_taint, stmt_effect,
};
use crate::merge::{fold_preds, iota, joined, merged_entry, qualifies};
use crate::ownership::{Label, OwnershipLayout};
use crate::RlcGlobalCtxt;
use vstd::prelude::*;

verus! {

/// Whether `stmt` sets the length of local `v`.
pub open spec fn writes_len(stmt: Statement, v: usize) -> bool {
    match stmt {
        Statement::Construct { target } => target == v,
        Statement::Resize { target, change } => target == v,
        _ => false,
    }
}

/// Whether `term` is a call whose result goes to local `v`.
pub open spec fn call_receives(term: Terminator, v: usize) -> bool {
    term matches Terminator::Call { callee, args, dest, targets } && dest == v
}

/// Statements that begin with the construction of an empty collection in
/// `v` and two pushes onto it, and do not set the length of `v` after that.
pub open spec fn builds_two(stmts: Seq<Statement>, v: usize) -> bool {
    &&& stmts.len() >= 3
    &&& stmts[0] == Statement::Construct { target: v }
    &&& stmts[1] == Statement::Resize { target: v, change: LenChange::Grow(1) }
    &&& stmts[2] == Statement::Resize { target: v, change: LenChange::Grow(1) }
    &&& forall|k: int| 3 <= k < stmts.len() ==> !writes_len(#[trigger] stmts[k], v)
}

proof fn lemma_run_builds_two(
    s: SliceView,
    stmts: Seq<Statement>,
    upto: int,
    layouts: Seq<OwnershipLayout>,
    n: nat,
    v: usize,
)
    requires
        s.wf(n),
        v < n,
        3 <= upto <= stmts.len(),
        builds_two(stmts, v),
        forall|k: int| 0 <= k < stmts.len() ==> (#[trigger] stmts[k]).within(n),
    ensures
        run_statements(s, stmts, upto, layouts).wf(n),
        run_statements(s, stmts, upto, layouts).len[v as int] == 2,
    decreases upto,
{
    if upto == 3 {
        let r0 = run_statements(s, stmts, 0, layouts);
        let r1 = run_statements(s, stmts, 1, layouts);
        let r2 = run_statements(s, stmts, 2, layouts);
        let r3 = run_statements(s, stmts, 3, layouts);
        assert(r0 == s);
        assert(r1 == stmt_effect(r0, stmts[0], layouts));
        lemma_stmt_keeps_shape(r0, stmts[0], layouts, n);
        assert(r1.len[v as int] == 0);
        assert(r2 == stmt_effect(r1, stmts[1], layouts));
        lemma_stmt_keeps_shape(r1, stmts[1], layouts, n);
        assert(r2.len[v as int] == 1);
        assert(r3 == stmt_effect(r2, stmts[2], layouts));
        lemma_stmt_keeps_shape(r2, stmts[2], layouts, n);
        assert(r3.len[v as int] == 2);
    } else {
        lemma_run_builds_two(s, stmts, upto - 1, layouts, n, v);
        let before = run_statements(s, stmts, upto - 1, layouts);
        assert(!writes_len(stmts[upto - 1], v));
        lemma_stmt_keeps_shape(before, stmts[upto - 1], layouts, n);
    }
}

/// Length tracking: a block that is walked and that begins with the
/// construction of an empty collection in `v` and two pushes onto it, and
/// sets the length of `v` nowhere else, has the length 2 for `v` on its
/// exit, whatever the rest of the function does.
pub proof fn lemma_two_pushes_give_two(
    rcx: RlcGlobalCtxt,
    f: FnId,
    visited: Set<FnId>,
    depth: nat,
    j: int,
    v: usize,
)
    requires
        rcx.walkable(f),
        0 <= j < rcx.mir_graph@[f].topo@.len(),
        builds_two(
            rcx.bodies@[f as int].basic_blocks@[rcx.mir_graph@[f].topo@[j] as int].statements@,
            v,
        ),
        !call_receives(
            rcx.bodies@[f as int].basic_blocks@[rcx.mir_graph@[f].topo@[j] as int].terminator,
            v,
        ),
    ensures
        analyze_spec(rcx, f, visited, depth).0.exit[rcx.mir_graph@[f].topo@[j] as int].len[v as int]
            == 2,
{
    let body = rcx.bodies@[f as int];
    let g = rcx.mir_graph@[f];
    let topo = g.topo@;
    let n = body.local_decls as nat;
    let b = topo[j];
    let block = body.basic_blocks@[b as int];
    let stmts = block.statements@;
    lemma_walk_frame(rcx, f, j, topo.len() as int, visited, depth);
    lemma_walk_shape(rcx, f, j, visited, depth);
    let before = walk_spec(rcx, f, j, visited, depth);
    let entry = merged_entry(before.0.exit, g.pred()[b as int], topo, n);
    lemma_merged_shape(before.0.exit, g.pred()[b as int], topo, n);
    assert(block.within(n, body.basic_blocks@.len()));
    assert(stmts[0].within(n));
    lemma_run_builds_two(entry, stmts, stmts.len() as int, rcx.adt_owner.layouts@, n, v);
    let mid = run_statements(entry, stmts, stmts.len() as int, rcx.adt_owner.layouts@);
    match block.terminator {
        Terminator::Call { callee, args, dest, targets } => {
            let after = call_spec(rcx, mid, callee, args@, dest, before.1, depth);
            assert(after.0.len[v as int] == mid.len[v as int]);
        },
        _ => {},
    }
}

/// Whether `stmt` may add labels to local `t`.
pub open spec fn writes_taint(stmt: Statement, t: usize) -> bool {
    stmt matches Statement::Assign { target, operands, source } && target == t
}

/// Whether `term` is a call that may add labels to local `t`: one that
/// takes `t` as an argument or puts its result there.
pub open spec fn call_touches(term: Terminator, t: usize) -> bool {
    term matches Terminator::Call { callee, args, dest, targets } && (dest == t || args@.contains(
        t,
    ))
}

/// Neither a statement of `block` nor its terminator may add labels to
/// local `t`.
pub open spec fn block_spares(block: BasicBlock, t: usize) -> bool {
    &&& forall|k: int|
        0 <= k < block.statements@.len() ==> !writes_taint(#[trigger] block.statements@[k], t)
    &&& !call_touches(block.terminator, t)
}

/// `stmt` assigns to `x` from a taint source with the label `l`, and from
/// nothing else.
pub open spec fn is_source(stmt: Statement, x: usize, l: Label) -> bool {
    stmt matches Statement::Assign { target, operands, source } && target == x && operands@.len()
        == 0 && source == Some(l)
}

/// `stmt` assigns `from` to `to`, and is no taint source.
pub open spec fn is_copy(stmt: Statement, to: usize, from: usize) -> bool {
    stmt matches Statement::Assign { target, operands, source } && target == to
        && operands@.len() == 1 && operands@[0] == from && source is None
}

/// Among `stmts`, `x` is assigned from a source with the label `l` at `p1`,
/// then `y = x` at `p2`, then `r = y` at `p3`, and no other statement
/// assigns to one of the three.
pub open spec fn flows(
    stmts: Seq<Statement>,
    p1: int,
    p2: int,
    p3: int,
    x: usize,
    y: usize,
    r: usize,
    l: Label,
) -> bool {
    &&& 0 <= p1 < p2 < p3 < stmts.len()
    &&& x != y && y != r && x != r
    &&& is_source(stmts[p1], x, l)
    &&& is_copy(stmts[p2], y, x)
    &&& is_copy(stmts[p3], r, y)
    &&& forall|k: int|
        0 <= k < stmts.len() && k != p1 && k != p2 && k != p3 ==> !writes_taint(
            #[trigger] stmts[k],
            x,
        ) && !writes_taint(stmts[k], y) && !writes_taint(stmts[k], r)
}

proof fn lemma_stmt_spares(s: SliceView, stmt: Statement, layouts: Seq<OwnershipLayout>, n: nat, t: usize)
    requires
        s.wf(n),
        stmt.within(n),
        t < n,
        !writes_taint(stmt, t),
    ensures
        stmt_effect(s, stmt, layouts).wf(n),
        stmt_effect(s, stmt, layouts).taint[t as int] == s.taint[t as int],
{
}

proof fn lemma_run_spares(
    s: SliceView,
    stmts: Seq<Statement>,
    upto: int,
    layouts: Seq<OwnershipLayout>,
    n: nat,
    t: usize,
)
    requires
        s.wf(n),
        t < n,
        upto <= stmts.len(),
        forall|k: int| 0 <= k < stmts.len() ==> (#[trigger] stmts[k]).within(n),
        forall|k: int| 0 <= k < stmts.len() ==> !writes_taint(#[trigger] stmts[k], t),
    ensures
        run_statements(s, stmts, upto, layouts).wf(n),
        run_statements(s, stmts, upto, layouts).taint[t as int] == s.taint[t as int],
    decreases upto,
{
    if upto > 0 {
        lemma_run_spares(s, stmts, upto - 1, layouts, n, t);
        lemma_stmt_spares(
            run_statements(s, stmts, upto - 1, layouts),
            stmts[upto - 1],
            layouts,
            n,
            t,
        );
    }
}

proof fn lemma_fold_quiet(
    exits: Seq<SliceView>,
    preds: Seq<usize>,
    cands: Seq<usize>,
    skip: Seq<usize>,
    upto: int,
    start: SliceView,
    n: nat,
    t: usize,
)
    requires
        start.wf(n),
        t < n,
        start.taint[t as int] == Set::<Label>::empty(),
        upto <= cands.len(),
        all_below(cands, exits.len()),
        forall|c: int| 0 <= c < exits.len() ==> (#[trigger] exits[c]).taint[t as int] == Set::<
            Label,
        >::empty(),
    ensures
        fold_preds(exits, preds, cands, skip, upto, start).wf(n),
        fold_preds(exits, preds, cands, skip, upto, start).taint[t as int] == Set::<Label>::empty(),
    decreases upto,
{
    if upto > 0 {
        lemma_fold_quiet(exits, preds, cands, skip, upto - 1, start, n, t);
        let acc = fold_preds(exits, preds, cands, skip, upto - 1, start);
        let c = cands[upto - 1];
        if qualifies(preds, skip, c) {
            let x = exits[c as int];
            assert(joined(acc, x).taint[t as int] =~= Set::<Label>::empty());
        }
    }
}

proof fn lemma_merged_quiet(exits: Seq<SliceView>, preds: Seq<usize>, topo: Seq<usize>, n: nat, t: usize)
    requires
        t < n,
        exits.len() <= usize::MAX,
        all_below(topo, exits.len()),
        forall|c: int| 0 <= c < exits.len() ==> (#[trigger] exits[c]).taint[t as int] == Set::<
            Label,
        >::empty(),
    ensures
        merged_entry(exits, preds, topo, n).wf(n),
        merged_entry(exits, preds, topo, n).taint[t as int] == Set::<Label>::empty(),
{
    let none = Seq::<usize>::empty();
    let blank = SliceView::blank(n);
    lemma_fold_quiet(exits, preds, topo, none, topo.len() as int, blank, n, t);
    let first = fold_preds(exits, preds, topo, none, topo.len() as int, blank);
    lemma_fold_quiet(exits, preds, iota(exits.len()), topo, exits.len() as int, first, n, t);
}

proof fn lemma_call_spares(
    rcx: RlcGlobalCtxt,
    s: SliceView,
    callee: FnId,
    args: Seq<usize>,
    dest: usize,
    visited: Set<FnId>,
    depth: nat,
    n: nat,
    t: usize,
)
    requires
        s.wf(n),
        dest < n,
        t < n,
        dest != t,
        !args.contains(t),
    ensures
        call_spec(rcx, s, callee, args, dest, visited, depth).0.taint[t as int] == s.taint[t as int],
{
    let after = call_spec(rcx, s, callee, args, dest, visited, depth).0;
    assert(after.taint[t as int] =~= s.taint[t as int]);
}

proof fn lemma_walk_quiet(
    rcx: RlcGlobalCtxt,
    f: FnId,
    upto: int,
    visited: Set<FnId>,
    depth: nat,
    t: usize,
    b: usize,
)
    requires
        rcx.walkable(f),
        0 <= upto <= rcx.mir_graph@[f].topo@.len(),
        t < rcx.bodies@[f as int].local_decls,
        forall|i: int| 0 <= i < upto ==> rcx.mir_graph@[f].topo@[i] != b,
        forall|c: int|
            0 <= c < rcx.bodies@[f as int].basic_blocks@.len() && c != b ==> block_spares(
                #[trigger] rcx.bodies@[f as int].basic_blocks@[c],
                t,
            ),
    ensures
        forall|c: int|
            0 <= c < rcx.bodies@[f as int].basic_blocks@.len() ==> (#[trigger] walk_spec(
                rcx,
                f,
                upto,
                visited,
                depth,
            ).0.exit[c]).taint[t as int] == Set::<Label>::empty(),
    decreases upto,
{
    let body = rcx.bodies@[f as int];
    let g = rcx.mir_graph@[f];
    let n = body.local_decls as nat;
    if upto > 0 {
        lemma_walk_quiet(rcx, f, upto - 1, visited, depth, t, b);
        lemma_walk_shape(rcx, f, upto - 1, visited, depth);
        let before = walk_spec(rcx, f, upto - 1, visited, depth);
        let c0 = g.topo@[upto - 1];
        let block = body.basic_blocks@[c0 as int];
        assert(block_spares(block, t));
        assert(block.within(n, body.basic_blocks@.len()));
        assert(before.0.exit.len() == body.basic_blocks.len());
        let entry = merged_entry(before.0.exit, g.pred()[c0 as int], g.topo@, n);
        lemma_merged_quiet(before.0.exit, g.pred()[c0 as int], g.topo@, n, t);
        let mid = run_statements(
            entry,
            block.statements@,
            block.statements@.len() as int,
            rcx.adt_owner.layouts@,
        );
        lemma_run_spares(
            entry,
            block.statements@,
            block.statements@.len() as int,
            rcx.adt_owner.layouts@,
            n,
            t,
        );
        match block.terminator {
            Terminator::Call { callee, args, dest, targets } => {
                lemma_call_spares(rcx, mid, callee, args@, dest, before.1, depth, n, t);
            },
            _ => {},
        }
        let now = walk_spec(rcx, f, upto, visited, depth);
        assert forall|c: int| 0 <= c < body.basic_blocks@.len() implies (#[trigger] now.0.exit[c]).taint[t as int]
            == Set::<Label>::empty() by {
            if c != c0 {
                assert(now.0.exit[c] == before.0.exit[c]);
            }
        }
    } else {
        let now = walk_spec(rcx, f, upto, visited, depth);
        assert forall|c: int| 0 <= c < body.basic_blocks@.len() implies (#[trigger] now.0.exit[c]).taint[t as int]
            == Set::<Label>::empty() by {
            assert(now.0.exit[c] == SliceView::blank(n));
        }
    }
}

proof fn lemma_run_flows(
    s: SliceView,
    stmts: Seq<Statement>,
    upto: int,
    layouts: Seq<OwnershipLayout>,
    n: nat,
    p1: int,
    p2: int,
    p3: int,
    x: usize,
    y: usize,
    r: usize,
    l: Label,
)
    requires
        s.wf(n),
        0 <= upto <= stmts.len(),
        forall|k: int| 0 <= k < stmts.len() ==> (#[trigger] stmts[k]).within(n),
        flows(stmts, p1, p2, p3, x, y, r, l),
        s.taint[x as int] == Set::<Label>::empty(),
        s.taint[y as int] == Set::<Label>::empty(),
        s.taint[r as int] == Set::<Label>::empty(),
    ensures
        run_statements(s, stmts, upto, layouts).wf(n),
        run_statements(s, stmts, upto, layouts).taint[x as int] == if upto > p1 {
            set![l]
        } else {
            Set::<Label>::empty()
        },
        run_statements(s, stmts, upto, layouts).taint[y as int] == if upto > p2 {
            set![l]
        } else {
            Set::<Label>::empty()
        },
        run_statements(s, stmts, upto, layouts).taint[r as int] == if upto > p3 {
            set![l]
        } else {
            Set::<Label>::empty()
        },
    decreases upto,
{
    assert(stmts[p1].within(n) && stmts[p2].within(n) && stmts[p3].within(n));
    if upto > 0 {
        lemma_run_flows(s, stmts, upto - 1, layouts, n, p1, p2, p3, x, y, r, l);
        let before = run_statements(s, stmts, upto - 1, layouts);
        let k = upto - 1;
        let stmt = stmts[k];
        let after = stmt_effect(before, stmt, layouts);
        lemma_stmt_keeps_shape(before, stmt, layouts, n);
        if k == p1 {
            match stmt {
                Statement::Assign { target, operands, source } => {
                    assert(operand_taint(before.taint, operands@) =~= Set::<Label>::empty());
                    assert(source_taint(source) =~= set![l]);
                    assert(after.taint[x as int] =~= set![l]);
                },
                _ => {},
            }
        } else if k == p2 {
            match stmt {
                Statement::Assign { target, operands, source } => {
                    assert(operand_taint(before.taint, operands@) =~= before.taint[x as int]) by {
                        assert(operands@[0] == x);
                    }
                    assert(after.taint[y as int] =~= set![l]);
                },
                _ => {},
            }
        } else if k == p3 {
            match stmt {
                Statement::Assign { target, operands, source } => {
                    assert(operand_taint(before.taint, operands@) =~= before.taint[y as int]) by {
                        assert(operands@[0] == y);
                    }
                    assert(after.taint[r as int] =~= set![l]);
                },
                _ => {},
            }
        } else {
            lemma_stmt_spares(before, stmt, layouts, n, x);
            lemma_stmt_spares(before, stmt, layouts, n, y);
            lemma_stmt_spares(before, stmt, layouts, n, r);
        }
    }
}

/// Simple taint flow: in a function where a returning block that is walked
/// assigns `x` from a taint source with the label `l`, then `y = x`, then
/// `r = y`, and where nothing else assigns to `x`, `y` or `r` or hands them
/// to a call or receives a call's result in them, the three carry exactly
/// the label `l` on the exit of that block.
pub proof fn lemma_taint_flows_to_return(
    rcx: RlcGlobalCtxt,
    f: FnId,
    visited: Set<FnId>,
    depth: nat,
    j: int,
    p1: int,
    p2: int,
    p3: int,
    x: usize,
    y: usize,
    r: usize,
    l: Label,
)
    requires
        rcx.walkable(f),
        0 <= j < rcx.mir_graph@[f].topo@.len(),
        rcx.bodies@[f as int].basic_blocks@[rcx.mir_graph@[f].topo@[j] as int].terminator is Return,
        flows(
            rcx.bodies@[f as int].basic_blocks@[rcx.mir_graph@[f].topo@[j] as int].statements@,
            p1,
            p2,
            p3,
            x,
            y,
            r,
            l,
        ),
        forall|c: int|
            0 <= c < rcx.bodies@[f as int].basic_blocks@.len() && c != rcx.mir_graph@[f].topo@[j]
                ==> block_spares(#[trigger] rcx.bodies@[f as int].basic_blocks@[c], x)
                && block_spares(rcx.bodies@[f as int].basic_blocks@[c], y) && block_spares(
                rcx.bodies@[f as int].basic_blocks@[c],
                r,
            ),
    ensures
        analyze_spec(rcx, f, visited, depth).0.exit[rcx.mir_graph@[f].topo@[j] as int].taint[r as int]
            == set![l],
        analyze_spec(rcx, f, visited, depth).0.exit[rcx.mir_graph@[f].topo@[j] as int].taint[x as int]
            == set![l],
        analyze_spec(rcx, f, visited, depth).0.exit[rcx.mir_graph@[f].topo@[j] as int].taint[y as int]
            == set![l],
{
    let body = rcx.bodies@[f as int];
    let g = rcx.mir_graph@[f];
    let topo = g.topo@;
    let n = body.local_decls as nat;
    let b = topo[j];
    let block = body.basic_blocks@[b as int];
    let stmts = block.statements@;
    assert(block.within(n, body.basic_blocks@.len()));
    assert(stmts[p1].within(n) && stmts[p2].within(n) && stmts[p3].within(n));
    assert forall|i: int| 0 <= i < j implies topo[i] != b by {}
    lemma_walk_quiet(rcx, f, j, visited, depth, x, b);
    lemma_walk_quiet(rcx, f, j, visited, depth, y, b);
    lemma_walk_quiet(rcx, f, j, visited, depth, r, b);
    lemma_walk_shape(rcx, f, j, visited, depth);
    lemma_walk_frame(rcx, f, j, topo.len() as int, visited, depth);
    let before = walk_spec(rcx, f, j, visited, depth);
    assert(before.0.exit.len() == body.basic_blocks.len());
    let entry = merged_entry(before.0.exit, g.pred()[b as int], topo, n);
    lemma_merged_quiet(before.0.exit, g.pred()[b as int], topo, n, x);
    lemma_merged_quiet(before.0.exit, g.pred()[b as int], topo, n, y);
    lemma_merged_quiet(before.0.exit, g.pred()[b as int], topo, n, r);
    lemma_run_flows(
        entry,
        stmts,
        stmts.len() as int,
        rcx.adt_owner.layouts@,
        n,
        p1,
        p2,
        p3,
        x,
        y,
        r,
        l,
    );
}

} // verus!
