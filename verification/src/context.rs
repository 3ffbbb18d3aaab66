//! The state store of one function and the working slice of one block.
use crate::ownership::{IntroVar, Label, OwnerTag, OwnershipLayout, Taint, TyWithIndex};
use std::fmt::Debug;
use vstd::prelude::*;

verus! {

/// Whether `x` is a value that `T::default()` may return.
pub open spec fn is_default<T: Default>(x: T) -> bool {
    call_ensures(T::default, (), x)
}

/// `len` default values.
pub fn defaults<T: Default>(len: usize) -> (r: Vec<T>)
    ensures
        r.len() == len,
        forall|k: int| 0 <= k < len ==> is_default(#[trigger] r[k]),
{
    let mut r: Vec<T> = Vec::new();
    let mut k: usize = 0;
    while k < len
        invariant
            k <= len,
            r.len() == k,
            forall|j: int| 0 <= j < k ==> is_default(#[trigger] r[j]),
        decreases len - k,
    {
        r.push(T::default());
        k += 1;
    }
    r
}

/// The facts of one kind at one block: `i` holds them before the block's
/// first statement, `o` after its terminator, one slot for each local.
#[derive(Debug, Clone, Default)]
pub struct InOutPair<T: Debug + Clone + Default> {
    pub i: Vec<T>,
    pub o: Vec<T>,
}

impl<T> InOutPair<T> where T: Debug + Clone + Default {
    pub fn new(len: usize) -> (r: Self)
        ensures
            r.i.len() == len,
            r.o.len() == len,
            forall|k: int| 0 <= k < len ==> is_default(#[trigger] r.i[k]),
            forall|k: int| 0 <= k < len ==> is_default(#[trigger] r.o[k]),
    {
        InOutPair { i: defaults(len), o: defaults(len) }
    }

    pub fn get_i(&self) -> (r: &Vec<T>)
        ensures
            *r == self.i,
    {
        &self.i
    }

    pub fn get_o(&self) -> (r: &Vec<T>)
        ensures
            *r == self.o,
    {
        &self.o
    }

    pub fn get_i_mut(&mut self) -> (r: &mut Vec<T>)
        ensures
            *r == old(self).i,
            final(self).i == *final(r),
            final(self).o == old(self).o,
    {
        &mut self.i
    }

    pub fn get_o_mut(&mut self) -> (r: &mut Vec<T>)
        ensures
            *r == old(self).o,
            final(self).o == *final(r),
            final(self).i == old(self).i,
    {
        &mut self.o
    }

    /// The number of slots on the entry side.
    pub fn len(&self) -> (r: usize)
        ensures
            r == self.i.len(),
    {
        self.i.len()
    }
}

/// The facts of one kind for a whole function: one pair for each block.
#[derive(Debug, Clone, Default)]
pub struct IOPairForGraph<T: Debug + Clone + Default> {
    pub pair_graph: Vec<InOutPair<T>>,
}

impl<T> IOPairForGraph<T> where T: Debug + Clone + Default {
    /// `b_len` pairs with `v_len` slots on either side.
    pub open spec fn shaped(self, b_len: nat, v_len: nat) -> bool {
        &&& self.pair_graph.len() == b_len
        &&& forall|b: int|
            0 <= b < b_len ==> (#[trigger] self.pair_graph[b]).i.len() == v_len
                && self.pair_graph[b].o.len() == v_len
    }

    pub fn new(b_len: usize, v_len: usize) -> (r: Self)
        ensures
            r.shaped(b_len as nat, v_len as nat),
            forall|b: int, k: int|
                0 <= b < b_len && 0 <= k < v_len ==> is_default(#[trigger] r.pair_graph[b].i[k]),
            forall|b: int, k: int|
                0 <= b < b_len && 0 <= k < v_len ==> is_default(#[trigger] r.pair_graph[b].o[k]),
    {
        let mut g: Vec<InOutPair<T>> = Vec::new();
        let mut b: usize = 0;
        while b < b_len
            invariant
                b <= b_len,
                g.len() == b,
                forall|c: int|
                    0 <= c < b ==> (#[trigger] g[c]).i.len() == v_len && g[c].o.len() == v_len,
                forall|c: int, k: int|
                    0 <= c < b && 0 <= k < v_len ==> is_default(#[trigger] g[c].i[k]),
                forall|c: int, k: int|
                    0 <= c < b && 0 <= k < v_len ==> is_default(#[trigger] g[c].o[k]),
            decreases b_len - b,
        {
            g.push(InOutPair::new(v_len));
            b += 1;
        }
        IOPairForGraph { pair_graph: g }
    }

    pub fn get_g(&self) -> (r: &Vec<InOutPair<T>>)
        ensures
            *r == self.pair_graph,
    {
        &self.pair_graph
    }

    pub fn get_g_mut(&mut self) -> (r: &mut Vec<InOutPair<T>>)
        ensures
            *r == old(self).pair_graph,
            final(self).pair_graph == *final(r),
    {
        &mut self.pair_graph
    }
}

/// The label sets of a row of taints.
pub open spec fn taint_views(v: Seq<Taint>) -> Seq<Set<Label>> {
    Seq::new(v.len(), |k: int| v[k]@)
}

/// The tag sequences of a row of layouts.
pub open spec fn layout_views(v: Seq<OwnershipLayout>) -> Seq<Seq<OwnerTag>> {
    Seq::new(v.len(), |k: int| v[k]@)
}

/// What a row of the store, or a working slice, holds: for each of the five
/// kinds of fact one value for each local.
pub struct SliceView {
    pub taint: Seq<Set<Label>>,
    pub var: Seq<IntroVar>,
    pub len: Seq<usize>,
    pub ty: Seq<TyWithIndex>,
    pub layout: Seq<Seq<OwnerTag>>,
}

impl SliceView {
    /// All five kinds have `n` slots.
    pub open spec fn wf(self, n: nat) -> bool {
        &&& self.taint.len() == n
        &&& self.var.len() == n
        &&& self.len.len() == n
        &&& self.ty.len() == n
        &&& self.layout.len() == n
    }

    /// `n` locals of which nothing is known.
    pub open spec fn blank(n: nat) -> SliceView {
        SliceView {
            taint: Seq::new(n, |k: int| Set::<Label>::empty()),
            var: Seq::new(n, |k: int| IntroVar::Declared),
            len: Seq::new(n, |k: int| 0usize),
            ty: Seq::new(n, |k: int| TyWithIndex(None)),
            layout: Seq::new(n, |k: int| Seq::<OwnerTag>::empty()),
        }
    }
}

/// A copy of a row of taints, label for label.
pub fn copy_taints(v: &Vec<Taint>) -> (r: Vec<Taint>)
    ensures
        r.len() == v.len(),
        taint_views(r@) == taint_views(v@),
{
    let r = v.clone();
    assert(taint_views(r@) =~= taint_views(v@));
    r
}

/// A copy of a row of layouts, tag for tag.
pub fn copy_layouts(v: &Vec<OwnershipLayout>) -> (r: Vec<OwnershipLayout>)
    ensures
        r.len() == v.len(),
        layout_views(r@) == layout_views(v@),
{
    let r = v.clone();
    assert forall|k: int| 0 <= k < v.len() implies #[trigger] r[k]@ == v[k]@ by {
        assert(r[k]@ =~= v[k]@);
    }
    assert(layout_views(r@) =~= layout_views(v@));
    r
}

pub fn copy_vars(v: &Vec<IntroVar>) -> (r: Vec<IntroVar>)
    ensures
        r@ == v@,
{
    let r = v.clone();
    assert(r@ =~= v@);
    r
}

pub fn copy_lens(v: &Vec<usize>) -> (r: Vec<usize>)
    ensures
        r@ == v@,
{
    let r = v.clone();
    assert(r@ =~= v@);
    r
}

pub fn copy_tys(v: &Vec<TyWithIndex>) -> (r: Vec<TyWithIndex>)
    ensures
        r@ == v@,
{
    let r = v.clone();
    assert(r@ =~= v@);
    r
}

/// A row of default values is a row of which nothing is known.
pub proof fn lemma_default_row(
    taint: Seq<Taint>,
    var: Seq<IntroVar>,
    len: Seq<usize>,
    ty: Seq<TyWithIndex>,
    layout: Seq<OwnershipLayout>,
    n: nat,
)
    requires
        taint.len() == n,
        var.len() == n,
        len.len() == n,
        ty.len() == n,
        layout.len() == n,
        forall|k: int| 0 <= k < n ==> is_default(#[trigger] taint[k]),
        forall|k: int| 0 <= k < n ==> is_default(#[trigger] var[k]),
        forall|k: int| 0 <= k < n ==> is_default(#[trigger] len[k]),
        forall|k: int| 0 <= k < n ==> is_default(#[trigger] ty[k]),
        forall|k: int| 0 <= k < n ==> is_default(#[trigger] layout[k]),
    ensures
        (SliceView {
            taint: taint_views(taint),
            var: var,
            len: len,
            ty: ty,
            layout: layout_views(layout),
        }) == SliceView::blank(n),
{
    let blank = SliceView::blank(n);
    assert(taint_views(taint) =~= blank.taint);
    assert(var =~= blank.var);
    assert(len =~= blank.len);
    assert(ty =~= blank.ty);
    assert(layout_views(layout) =~= blank.layout);
}

/// The state store of one function: for each kind of fact, and for each
/// block, the facts on entry and on exit.
#[derive(Debug, Clone)]
pub struct IntroFlowContext {
    pub taint: IOPairForGraph<Taint>,
    pub var: IOPairForGraph<IntroVar>,
    pub len: IOPairForGraph<usize>,
    // the symbolic type of the value that a local holds, which may differ from
    // the type the local was declared with
    pub ty: IOPairForGraph<TyWithIndex>,
    pub layout: IOPairForGraph<OwnershipLayout>,
}

impl IntroFlowContext {
    /// Whether every kind of fact has a row for block `b`.
    pub open spec fn has_block(self, b: int) -> bool {
        &&& 0 <= b < self.taint.pair_graph.len()
        &&& b < self.var.pair_graph.len()
        &&& b < self.len.pair_graph.len()
        &&& b < self.ty.pair_graph.len()
        &&& b < self.layout.pair_graph.len()
    }

    /// Each kind of fact has as many rows as it has in `other`.
    pub open spec fn same_rows(self, other: IntroFlowContext) -> bool {
        &&& self.taint.pair_graph@.len() == other.taint.pair_graph@.len()
        &&& self.var.pair_graph@.len() == other.var.pair_graph@.len()
        &&& self.len.pair_graph@.len() == other.len.pair_graph@.len()
        &&& self.ty.pair_graph@.len() == other.ty.pair_graph@.len()
        &&& self.layout.pair_graph@.len() == other.layout.pair_graph@.len()
    }

    /// The store has `b_len` blocks, and every row of it `v_len` slots.
    pub open spec fn wf(self, b_len: nat, v_len: nat) -> bool {
        &&& self.taint.shaped(b_len, v_len)
        &&& self.var.shaped(b_len, v_len)
        &&& self.len.shaped(b_len, v_len)
        &&& self.ty.shaped(b_len, v_len)
        &&& self.layout.shaped(b_len, v_len)
    }

    /// The facts on entry to block `b`.
    pub open spec fn entry_view(self, b: int) -> SliceView {
        SliceView {
            taint: taint_views(self.taint.pair_graph[b].i@),
            var: self.var.pair_graph[b].i@,
            len: self.len.pair_graph[b].i@,
            ty: self.ty.pair_graph[b].i@,
            layout: layout_views(self.layout.pair_graph[b].i@),
        }
    }

    /// The facts on exit from block `b`.
    pub open spec fn exit_view(self, b: int) -> SliceView {
        SliceView {
            taint: taint_views(self.taint.pair_graph[b].o@),
            var: self.var.pair_graph[b].o@,
            len: self.len.pair_graph[b].o@,
            ty: self.ty.pair_graph[b].o@,
            layout: layout_views(self.layout.pair_graph[b].o@),
        }
    }

    /// A store for `b_len` blocks and `v_len` locals in which nothing is
    /// known yet.
    pub fn new(b_len: usize, v_len: usize) -> (r: Self)
        ensures
            r.wf(b_len as nat, v_len as nat),
            forall|b: int|
                0 <= b < b_len ==> #[trigger] r.entry_view(b) == SliceView::blank(v_len as nat),
            forall|b: int|
                0 <= b < b_len ==> #[trigger] r.exit_view(b) == SliceView::blank(v_len as nat),
    {
        let r = IntroFlowContext {
            taint: IOPairForGraph::new(b_len, v_len),
            var: IOPairForGraph::new(b_len, v_len),
            len: IOPairForGraph::new(b_len, v_len),
            ty: IOPairForGraph::new(b_len, v_len),
            layout: IOPairForGraph::new(b_len, v_len),
        };
        proof {
            let n = v_len as nat;
            assert forall|b: int| 0 <= b < b_len implies #[trigger] r.entry_view(b)
                == SliceView::blank(n) by {
                lemma_default_row(
                    r.taint.pair_graph[b].i@,
                    r.var.pair_graph[b].i@,
                    r.len.pair_graph[b].i@,
                    r.ty.pair_graph[b].i@,
                    r.layout.pair_graph[b].i@,
                    n,
                );
            }
            assert forall|b: int| 0 <= b < b_len implies #[trigger] r.exit_view(b)
                == SliceView::blank(n) by {
                lemma_default_row(
                    r.taint.pair_graph[b].o@,
                    r.var.pair_graph[b].o@,
                    r.len.pair_graph[b].o@,
                    r.ty.pair_graph[b].o@,
                    r.layout.pair_graph[b].o@,
                    n,
                );
            }
        }
        r
    }

    pub fn taint(&self) -> (r: &IOPairForGraph<Taint>)
        ensures
            *r == self.taint,
    {
        &self.taint
    }

    pub fn taint_mut(&mut self) -> (r: &mut IOPairForGraph<Taint>)
        ensures
            *r == old(self).taint,
            final(self).taint == *final(r),
            final(self).var == old(self).var,
            final(self).len == old(self).len,
            final(self).ty == old(self).ty,
            final(self).layout == old(self).layout,
    {
        &mut self.taint
    }

    pub fn var(&self) -> (r: &IOPairForGraph<IntroVar>)
        ensures
            *r == self.var,
    {
        &self.var
    }

    pub fn var_mut(&mut self) -> (r: &mut IOPairForGraph<IntroVar>)
        ensures
            *r == old(self).var,
            final(self).var == *final(r),
            final(self).taint == old(self).taint,
            final(self).len == old(self).len,
            final(self).ty == old(self).ty,
            final(self).layout == old(self).layout,
    {
        &mut self.var
    }

    pub fn len(&self) -> (r: &IOPairForGraph<usize>)
        ensures
            *r == self.len,
    {
        &self.len
    }

    pub fn len_mut(&mut self) -> (r: &mut IOPairForGraph<usize>)
        ensures
            *r == old(self).len,
            final(self).len == *final(r),
            final(self).taint == old(self).taint,
            final(self).var == old(self).var,
            final(self).ty == old(self).ty,
            final(self).layout == old(self).layout,
    {
        &mut self.len
    }

    pub fn ty(&self) -> (r: &IOPairForGraph<TyWithIndex>)
        ensures
            *r == self.ty,
    {
        &self.ty
    }

    pub fn ty_mut(&mut self) -> (r: &mut IOPairForGraph<TyWithIndex>)
        ensures
            *r == old(self).ty,
            final(self).ty == *final(r),
            final(self).taint == old(self).taint,
            final(self).var == old(self).var,
            final(self).len == old(self).len,
            final(self).layout == old(self).layout,
    {
        &mut self.ty
    }

    pub fn layout(&self) -> (r: &IOPairForGraph<OwnershipLayout>)
        ensures
            *r == self.layout,
    {
        &self.layout
    }

    pub fn layout_mut(&mut self) -> (r: &mut IOPairForGraph<OwnershipLayout>)
        ensures
            *r == old(self).layout,
            final(self).layout == *final(r),
            final(self).taint == old(self).taint,
            final(self).var == old(self).var,
            final(self).len == old(self).len,
            final(self).ty == old(self).ty,
    {
        &mut self.layout
    }

    /// Makes the exit facts of block `from` the entry facts of block `to`.
    pub fn derive_from_pre_node(&mut self, from: usize, to: usize)
        requires
            old(self).has_block(from as int),
            old(self).has_block(to as int),
        ensures
            final(self).entry_view(to as int) == old(self).exit_view(from as int),
            final(self).same_rows(*old(self)),
            forall|b: int| final(self).has_block(b) == old(self).has_block(b),
            forall|b: int|
                old(self).has_block(b) ==> #[trigger] final(self).exit_view(b) == old(
                    self,
                ).exit_view(b),
            forall|b: int|
                old(self).has_block(b) && b != to ==> #[trigger] final(self).entry_view(b) == old(
                    self,
                ).entry_view(b),
            forall|b_len: nat, v_len: nat|
                old(self).wf(b_len, v_len) ==> final(self).wf(b_len, v_len),
    {
        // derive the storage from the pre node
        let taint = copy_taints(&self.taint.pair_graph[from].o);
        self.taint.pair_graph[to].i = taint;

        // derive the var vector from the pre node
        let var = copy_vars(&self.var.pair_graph[from].o);
        self.var.pair_graph[to].i = var;

        // derive the len vector from the pre node
        let len = copy_lens(&self.len.pair_graph[from].o);
        self.len.pair_graph[to].i = len;

        // derive the ty vector from the pre node
        let ty = copy_tys(&self.ty.pair_graph[from].o);
        self.ty.pair_graph[to].i = ty;

        // derive the layout vector from the pre node
        let layout = copy_layouts(&self.layout.pair_graph[from].o);
        self.layout.pair_graph[to].i = layout;

        proof {
            assert forall|b_len: nat, v_len: nat| old(self).wf(b_len, v_len) implies self.wf(
                b_len,
                v_len,
            ) by {
                assert(old(self).taint.pair_graph[from as int].o.len() == v_len);
                assert(old(self).var.pair_graph[from as int].o.len() == v_len);
                assert(old(self).len.pair_graph[from as int].o.len() == v_len);
                assert(old(self).ty.pair_graph[from as int].o.len() == v_len);
                assert(old(self).layout.pair_graph[from as int].o.len() == v_len);
            }
        }
    }

    /// Makes the working slice `from` the exit facts of block `to`.
    pub fn derive_from_icx_slice(&mut self, from: IcxSliceFroBlock, to: usize)
        requires
            old(self).has_block(to as int),
        ensures
            final(self).exit_view(to as int) == from@,
            final(self).same_rows(*old(self)),
            forall|b: int| final(self).has_block(b) == old(self).has_block(b),
            forall|b: int|
                old(self).has_block(b) ==> #[trigger] final(self).entry_view(b) == old(
                    self,
                ).entry_view(b),
            forall|b: int|
                old(self).has_block(b) && b != to ==> #[trigger] final(self).exit_view(b) == old(
                    self,
                ).exit_view(b),
            forall|b_len: nat, v_len: nat|
                old(self).wf(b_len, v_len) && from@.wf(v_len) ==> final(self).wf(b_len, v_len),
    {
        self.taint.pair_graph[to].o = from.taint;
        self.var.pair_graph[to].o = from.var;
        self.len.pair_graph[to].o = from.len;
        self.ty.pair_graph[to].o = from.ty;
        self.layout.pair_graph[to].o = from.layout;
    }
}

/// A working slice: the facts of one block, detached from the store while
/// the block is simulated.
#[derive(Debug)]
pub struct IcxSliceFroBlock {
    pub taint: Vec<Taint>,
    pub var: Vec<IntroVar>,
    pub len: Vec<usize>,
    // the symbolic type of the value that a local holds, which may differ from
    // the type the local was declared with
    pub ty: Vec<TyWithIndex>,
    pub layout: Vec<OwnershipLayout>,
}

impl View for IcxSliceFroBlock {
    type V = SliceView;

    open spec fn view(&self) -> SliceView {
        SliceView {
            taint: taint_views(self.taint@),
            var: self.var@,
            len: self.len@,
            ty: self.ty@,
            layout: layout_views(self.layout@),
        }
    }
}

/// `s` with the labels of `a` at local `u` added to its own at `u`.
pub open spec fn taint_merged(s: SliceView, a: SliceView, u: int) -> SliceView {
    SliceView { taint: s.taint.update(u, s.taint[u].union(a.taint[u])), ..s }
}

impl IcxSliceFroBlock {
    /// A copy of the entry facts of block `idx`.
    pub fn new_in(icx: &mut IntroFlowContext, idx: usize) -> (r: Self)
        requires
            old(icx).has_block(idx as int),
        ensures
            r@ == old(icx).entry_view(idx as int),
            *final(icx) == *old(icx),
    {
        IcxSliceFroBlock {
            taint: copy_taints(&icx.taint.pair_graph[idx].i),
            var: copy_vars(&icx.var.pair_graph[idx].i),
            len: copy_lens(&icx.len.pair_graph[idx].i),
            ty: copy_tys(&icx.ty.pair_graph[idx].i),
            layout: copy_layouts(&icx.layout.pair_graph[idx].i),
        }
    }

    /// A copy of the exit facts of block `idx`.
    pub fn new_out(icx: &mut IntroFlowContext, idx: usize) -> (r: Self)
        requires
            old(icx).has_block(idx as int),
        ensures
            r@ == old(icx).exit_view(idx as int),
            *final(icx) == *old(icx),
    {
        IcxSliceFroBlock {
            taint: copy_taints(&icx.taint.pair_graph[idx].o),
            var: copy_vars(&icx.var.pair_graph[idx].o),
            len: copy_lens(&icx.len.pair_graph[idx].o),
            ty: copy_tys(&icx.ty.pair_graph[idx].o),
            layout: copy_layouts(&icx.layout.pair_graph[idx].o),
        }
    }

    /// The slice with which the entry block starts: `len` locals of which
    /// nothing is known.
    pub fn new_for_block_0(len: usize) -> (r: Self)
        ensures
            r@ == SliceView::blank(len as nat),
    {
        let r = IcxSliceFroBlock {
            taint: defaults(len),
            var: defaults(len),
            len: defaults(len),
            ty: defaults(len),
            layout: defaults(len),
        };
        proof {
            lemma_default_row(r.taint@, r.var@, r.len@, r.ty@, r.layout@, len as nat);
        }
        r
    }

    pub fn taint(&self) -> (r: &Vec<Taint>)
        ensures
            *r == self.taint,
    {
        &self.taint
    }

    pub fn taint_mut(&mut self) -> (r: &mut Vec<Taint>)
        ensures
            *r == old(self).taint,
            final(self).taint == *final(r),
            final(self).var == old(self).var,
            final(self).len == old(self).len,
            final(self).ty == old(self).ty,
            final(self).layout == old(self).layout,
    {
        &mut self.taint
    }

    pub fn var(&self) -> (r: &Vec<IntroVar>)
        ensures
            *r == self.var,
    {
        &self.var
    }

    pub fn var_mut(&mut self) -> (r: &mut Vec<IntroVar>)
        ensures
            *r == old(self).var,
            final(self).var == *final(r),
            final(self).taint == old(self).taint,
            final(self).len == old(self).len,
            final(self).ty == old(self).ty,
            final(self).layout == old(self).layout,
    {
        &mut self.var
    }

    pub fn len(&self) -> (r: &Vec<usize>)
        ensures
            *r == self.len,
    {
        &self.len
    }

    pub fn len_mut(&mut self) -> (r: &mut Vec<usize>)
        ensures
            *r == old(self).len,
            final(self).len == *final(r),
            final(self).taint == old(self).taint,
            final(self).var == old(self).var,
            final(self).ty == old(self).ty,
            final(self).layout == old(self).layout,
    {
        &mut self.len
    }

    pub fn ty(&self) -> (r: &Vec<TyWithIndex>)
        ensures
            *r == self.ty,
    {
        &self.ty
    }

    pub fn ty_mut(&mut self) -> (r: &mut Vec<TyWithIndex>)
        ensures
            *r == old(self).ty,
            final(self).ty == *final(r),
            final(self).taint == old(self).taint,
            final(self).var == old(self).var,
            final(self).len == old(self).len,
            final(self).layout == old(self).layout,
    {
        &mut self.ty
    }

    pub fn layout(&self) -> (r: &Vec<OwnershipLayout>)
        ensures
            *r == self.layout,
    {
        &self.layout
    }

    pub fn layout_mut(&mut self) -> (r: &mut Vec<OwnershipLayout>)
        ensures
            *r == old(self).layout,
            final(self).layout == *final(r),
            final(self).taint == old(self).taint,
            final(self).var == old(self).var,
            final(self).len == old(self).len,
            final(self).ty == old(self).ty,
    {
        &mut self.layout
    }

    /// Adds to the labels of local `u` those that `another` has for it.
    pub fn taint_merge(&mut self, another: &IcxSliceFroBlock, u: usize)
        requires
            u < old(self).taint.len(),
            u < another.taint.len(),
        ensures
            final(self)@ == taint_merged(old(self)@, another@, u as int),
    {
        if another.taint[u].is_untainted() {
            assert(self@.taint[u as int].union(another@.taint[u as int]) =~= self@.taint[u as int]);
            assert(self@.taint =~= taint_merged(self@, another@, u as int).taint);
            return ;
        }
        if self.taint[u].is_untainted() {
            let fresh = another.taint[u].clone();
            self.taint[u] = fresh;
        } else {
            self.taint[u].absorb(&another.taint[u]);
        }
        assert(self@.taint[u as int] =~= old(self)@.taint[u as int].union(
            another@.taint[u as int],
        ));
        assert(self@.taint =~= taint_merged(old(self)@, another@, u as int).taint);
    }
}

impl Clone for IcxSliceFroBlock {
    fn clone(&self) -> (r: Self)
        ensures
            r@ == self@,
    {
        IcxSliceFroBlock {
            taint: copy_taints(&self.taint),
            var: copy_vars(&self.var),
            len: copy_lens(&self.len),
            ty: copy_tys(&self.ty),
            layout: copy_layouts(&self.layout),
        }
    }
}

impl Default for IcxSliceFroBlock {
    fn default() -> (r: Self)
        ensures
            r@ == SliceView::blank(0),
    {
        IcxSliceFroBlock::new_for_block_0(0)
    }
}

} // verus!
