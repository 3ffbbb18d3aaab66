//! The simulation of the statements of one block on a working slice.
use crate::body::{LenChange, Statement};
use crate::context::{IcxSliceFroBlock, SliceView};
use crate::ownership::{
    catalog_layout, AdtOwner, IntroVar, Label, OwnershipLayout, Taint, UNKNOWN_LEN,
};
use vstd::prelude::*;

verus! {

/// The least number above every identity in `vars`.
pub open spec fn next_id(vars: Seq<IntroVar>) -> nat
    decreases vars.len(),
{
    if vars.len() == 0 {
        0
    } else {
        let rest = next_id(vars.drop_last());
        match vars.last() {
            IntroVar::Init(x) => if rest > x {
                rest
            } else {
                (x + 1) as nat
            },
            _ => rest,
        }
    }
}

/// The identity for a binding that is new among `vars`.
pub open spec fn fresh_var(vars: Seq<IntroVar>) -> IntroVar {
    if next_id(vars) <= u64::MAX {
        IntroVar::Init(next_id(vars) as u64)
    } else {
        IntroVar::Unsupported
    }
}

/// No binding in `vars` has the identity that `fresh_var` gives.
pub proof fn lemma_fresh_is_new(vars: Seq<IntroVar>, k: int)
    requires
        0 <= k < vars.len(),
    ensures
        vars[k] matches IntroVar::Init(x) ==> x < next_id(vars),
        fresh_var(vars) is Init ==> vars[k] != fresh_var(vars),
    decreases vars.len(),
{
    if k < vars.len() - 1 {
        lemma_fresh_is_new(vars.drop_last(), k);
    }
}

/// The identity for a binding that is new in `vars`.
pub fn fresh_identity(vars: &Vec<IntroVar>) -> (r: IntroVar)
    ensures
        r == fresh_var(vars@),
{
    let mut next: u64 = 0;
    let mut full: bool = false;
    let mut k: usize = 0;
    while k < vars.len()
        invariant
            k <= vars.len(),
            !full ==> next == next_id(vars@.take(k as int)),
            full ==> next_id(vars@.take(k as int)) == u64::MAX + 1,
        decreases vars.len() - k,
    {
        assert(vars@.take(k + 1).drop_last() =~= vars@.take(k as int));
        assert(vars@.take(k + 1).last() == vars@[k as int]);
        match vars[k] {
            IntroVar::Init(x) => {
                if x == u64::MAX {
                    full = true;
                } else if !full && x >= next {
                    next = x + 1;
                }
            },
            _ => {},
        }
        k += 1;
    }
    assert(vars@.take(k as int) =~= vars@);
    if full {
        IntroVar::Unsupported
    } else {
        IntroVar::Init(next)
    }
}

/// The length of a collection of length `len` after `change`.
pub open spec fn resized(len: usize, change: LenChange) -> usize {
    if len == UNKNOWN_LEN {
        UNKNOWN_LEN
    } else {
        match change {
            LenChange::Grow(d) => if len + d < UNKNOWN_LEN {
                (len + d) as usize
            } else {
                UNKNOWN_LEN
            },
            LenChange::Shrink(d) => if d <= len {
                (len - d) as usize
            } else {
                UNKNOWN_LEN
            },
            LenChange::Unknown => UNKNOWN_LEN,
        }
    }
}

/// The length of a collection of length `len` after `change`: the sum or
/// the difference where it is a length, "not known" otherwise.
pub fn resize(len: usize, change: LenChange) -> (r: usize)
    ensures
        r == resized(len, change),
{
    if len == UNKNOWN_LEN {
        return UNKNOWN_LEN;
    }
    match change {
        LenChange::Grow(d) => {
            if d < UNKNOWN_LEN - len {
                len + d
            } else {
                UNKNOWN_LEN
            }
        },
        LenChange::Shrink(d) => {
            if d <= len {
                len - d
            } else {
                UNKNOWN_LEN
            }
        },
        LenChange::Unknown => UNKNOWN_LEN,
    }
}

/// The labels that the locals `ops` carry between them.
pub open spec fn operand_taint(taint: Seq<Set<Label>>, ops: Seq<usize>) -> Set<Label> {
    Set::new(
        |l: Label| exists|k: int| 0 <= k < ops.len() && taint[(#[trigger] ops[k]) as int].contains(l),
    )
}

/// The label that a taint source brings in, as a set.
pub open spec fn source_taint(source: Option<Label>) -> Set<Label> {
    match source {
        Some(l) => set![l],
        None => Set::empty(),
    }
}

/// The facts after `stmt`, given the facts `s` before it.
pub open spec fn stmt_effect(s: SliceView, stmt: Statement, layouts: Seq<OwnershipLayout>) -> SliceView {
    match stmt {
        Statement::Introduce { local } => SliceView {
            var: s.var.update(local as int, fresh_var(s.var)),
            ..s
        },
        Statement::Assign { target, operands, source } => SliceView {
            taint: s.taint.update(
                target as int,
                s.taint[target as int].union(operand_taint(s.taint, operands@)).union(
                    source_taint(source),
                ),
            ),
            ..s
        },
        Statement::Construct { target } => SliceView { len: s.len.update(target as int, 0), ..s },
        Statement::Resize { target, change } => SliceView {
            len: s.len.update(target as int, resized(s.len[target as int], change)),
            ..s
        },
        Statement::Rebind { target, ty } => SliceView {
            ty: s.ty.update(target as int, ty),
            layout: s.layout.update(target as int, catalog_layout(layouts, ty)),
            ..s
        },
        Statement::Nop => s,
    }
}

/// The facts after the first `upto` of `stmts`, given the facts `s` before
/// the first.
pub open spec fn run_statements(
    s: SliceView,
    stmts: Seq<Statement>,
    upto: int,
    layouts: Seq<OwnershipLayout>,
) -> SliceView
    decreases upto,
{
    if upto <= 0 {
        s
    } else {
        stmt_effect(run_statements(s, stmts, upto - 1, layouts), stmts[upto - 1], layouts)
    }
}

/// A statement keeps the number of slots.
pub proof fn lemma_stmt_keeps_shape(s: SliceView, stmt: Statement, layouts: Seq<OwnershipLayout>, n: nat)
    requires
        s.wf(n),
        stmt.within(n),
    ensures
        stmt_effect(s, stmt, layouts).wf(n),
{
}

/// The labels that the locals `ops` carry between them.
pub fn gather_taint(slice: &IcxSliceFroBlock, ops: &Vec<usize>) -> (r: Taint)
    requires
        forall|k: int| 0 <= k < ops@.len() ==> (#[trigger] ops@[k]) < slice.taint@.len(),
    ensures
        r@ == operand_taint(slice@.taint, ops@),
{
    let mut acc = Taint::default();
    let mut k: usize = 0;
    while k < ops.len()
        invariant
            k <= ops@.len(),
            forall|j: int| 0 <= j < ops@.len() ==> (#[trigger] ops@[j]) < slice.taint@.len(),
            acc@ == operand_taint(slice@.taint, ops@.take(k as int)),
        decreases ops@.len() - k,
    {
        let ghost before = acc@;
        acc.absorb(&slice.taint[ops[k]]);
        proof {
            let t = slice@.taint;
            let now = ops@.take(k + 1);
            let was = ops@.take(k as int);
            assert forall|l: Label| acc@.contains(l) <==> operand_taint(t, now).contains(l) by {
                if before.contains(l) {
                    let j = choose|j: int| 0 <= j < was.len() && t[(#[trigger] was[j]) as int].contains(l);
                    assert(now[j] == was[j]);
                }
                if t[ops@[k as int] as int].contains(l) {
                    assert(now[k as int] == ops@[k as int]);
                }
                if operand_taint(t, now).contains(l) {
                    let j = choose|j: int| 0 <= j < now.len() && t[(#[trigger] now[j]) as int].contains(l);
                    if j < k {
                        assert(was[j] == now[j]);
                    }
                }
            }
            assert(acc@ =~= operand_taint(t, now));
        }
        k += 1;
    }
    assert(ops@.take(k as int) =~= ops@);
    acc
}

/// Simulates one statement on the working slice.
pub fn transfer_statement(slice: &mut IcxSliceFroBlock, stmt: &Statement, owner: &AdtOwner)
    requires
        exists|n: nat| old(slice)@.wf(n) && stmt.within(n),
    ensures
        final(slice)@ == stmt_effect(old(slice)@, *stmt, owner.layouts@),
{
    match stmt {
        Statement::Introduce { local } => {
            let id = fresh_identity(&slice.var);
            slice.var[*local] = id;
            assert(slice@.var =~= old(slice)@.var.update(*local as int, id));
        },
        Statement::Assign { target, operands, source } => {
            let mut brought = gather_taint(slice, operands);
            match source {
                Some(l) => {
                    brought.insert(*l);
                },
                None => {},
            }
            slice.taint[*target].absorb(&brought);
            proof {
                let t = old(slice)@.taint;
                let add = operand_taint(t, operands@).union(source_taint(*source));
                assert(brought@ =~= add);
                assert(slice@.taint[*target as int] =~= t[*target as int].union(
                    operand_taint(t, operands@),
                ).union(source_taint(*source)));
                assert(slice@.taint =~= stmt_effect(old(slice)@, *stmt, owner.layouts@).taint);
            }
        },
        Statement::Construct { target } => {
            slice.len[*target] = 0;
        },
        Statement::Resize { target, change } => {
            let len = resize(slice.len[*target], *change);
            slice.len[*target] = len;
        },
        Statement::Rebind { target, ty } => {
            let layout = owner.layout_of(*ty);
            slice.ty[*target] = *ty;
            slice.layout[*target] = layout;
            assert(slice@.layout =~= old(slice)@.layout.update(
                *target as int,
                catalog_layout(owner.layouts@, *ty),
            ));
        },
        Statement::Nop => {},
    }
}

/// Simulates the statements of a block, in order, on the working slice.
pub fn transfer_statements(slice: &mut IcxSliceFroBlock, stmts: &Vec<Statement>, owner: &AdtOwner)
    requires
        exists|n: nat|
            old(slice)@.wf(n) && forall|k: int|
                0 <= k < stmts@.len() ==> (#[trigger] stmts@[k]).within(n),
    ensures
        final(slice)@ == run_statements(old(slice)@, stmts@, stmts@.len() as int, owner.layouts@),
{
    let ghost n = choose|n: nat|
        old(slice)@.wf(n) && forall|k: int|
            0 <= k < stmts@.len() ==> (#[trigger] stmts@[k]).within(n);
    let mut k: usize = 0;
    while k < stmts.len()
        invariant
            k <= stmts@.len(),
            slice@.wf(n),
            forall|j: int| 0 <= j < stmts@.len() ==> (#[trigger] stmts@[j]).within(n),
            slice@ == run_statements(old(slice)@, stmts@, k as int, owner.layouts@),
        decreases stmts@.len() - k,
    {
        proof {
            lemma_stmt_keeps_shape(slice@, stmts@[k as int], owner.layouts@, n);
        }
        transfer_statement(slice, &stmts[k], owner);
        k += 1;
    }
}

} // verus!
