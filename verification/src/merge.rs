//! How the exit facts of a block's predecessors make up its entry facts.
use crate::context::{
    layout_views, taint_merged, taint_views, IcxSliceFroBlock, IntroFlowContext, SliceView,
};
use crate::graph::Graph;
use crate::ownership::{copy_layout, IntroVar, Label, TyWithIndex};
use vstd::prelude::*;

verus! {

/// Whether `s` says nothing of local `k` but its taint: identity, length,
/// symbolic type and layout are all as in a slice of which nothing is known.
pub open spec fn silent(s: SliceView, k: int) -> bool {
    &&& s.var[k] == IntroVar::Declared
    &&& s.len[k] == 0
    &&& s.ty[k] == TyWithIndex(None)
    &&& s.layout[k].len() == 0
}

/// The facts `acc` gathered so far, joined with `x` from one more
/// predecessor. For each local: the labels of both; and identity, length,
/// symbolic type and layout all four as `acc` has them, unless `acc` is
/// silent on the local, in which case all four as `x` has them.
pub open spec fn joined(acc: SliceView, x: SliceView) -> SliceView {
    SliceView {
        taint: Seq::new(acc.taint.len(), |k: int| acc.taint[k].union(x.taint[k])),
        var: Seq::new(
            acc.var.len(),
            |k: int|
                if silent(acc, k) {
                    x.var[k]
                } else {
                    acc.var[k]
                },
        ),
        len: Seq::new(
            acc.len.len(),
            |k: int|
                if silent(acc, k) {
                    x.len[k]
                } else {
                    acc.len[k]
                },
        ),
        ty: Seq::new(
            acc.ty.len(),
            |k: int|
                if silent(acc, k) {
                    x.ty[k]
                } else {
                    acc.ty[k]
                },
        ),
        layout: Seq::new(
            acc.layout.len(),
            |k: int|
                if silent(acc, k) {
                    x.layout[k]
                } else {
                    acc.layout[k]
                },
        ),
    }
}

/// `joined(acc, x)` on the first `upto` locals, `acc` on the others.
pub open spec fn joined_upto(acc: SliceView, x: SliceView, upto: int) -> SliceView {
    let j = joined(acc, x);
    SliceView {
        taint: Seq::new(acc.taint.len(), |k: int| if k < upto { j.taint[k] } else { acc.taint[k] }),
        var: Seq::new(acc.var.len(), |k: int| if k < upto { j.var[k] } else { acc.var[k] }),
        len: Seq::new(acc.len.len(), |k: int| if k < upto { j.len[k] } else { acc.len[k] }),
        ty: Seq::new(acc.ty.len(), |k: int| if k < upto { j.ty[k] } else { acc.ty[k] }),
        layout: Seq::new(
            acc.layout.len(),
            |k: int| if k < upto { j.layout[k] } else { acc.layout[k] },
        ),
    }
}

impl IcxSliceFroBlock {
    /// Joins the facts of one more predecessor into this slice: its labels
    /// are added, and where this slice is silent on a local, identity,
    /// length, symbolic type and layout are taken over together.
    pub fn join(&mut self, another: &IcxSliceFroBlock)
        requires
            exists|n: nat| old(self)@.wf(n) && another@.wf(n),
        ensures
            final(self)@ == joined(old(self)@, another@),
    {
        let n = self.taint.len();
        let ghost acc = self@;
        let ghost x = another@;
        assert(self@.taint.len() == self.taint@.len());
        assert(self@.layout.len() == self.layout@.len());
        assert(another@.taint.len() == another.taint@.len());
        assert(another@.layout.len() == another.layout@.len());
        assert(self@ =~~= joined_upto(acc, x, 0)) by {
            assert(self@.taint =~= joined_upto(acc, x, 0).taint);
            assert(self@.var =~= joined_upto(acc, x, 0).var);
            assert(self@.len =~= joined_upto(acc, x, 0).len);
            assert(self@.ty =~= joined_upto(acc, x, 0).ty);
            assert(self@.layout =~= joined_upto(acc, x, 0).layout);
        }
        let mut k: usize = 0;
        while k < n
            invariant
                k <= n,
                acc.wf(n as nat),
                x == another@,
                x.wf(n as nat),
                self.taint@.len() == n,
                self.var@.len() == n,
                self.len@.len() == n,
                self.ty@.len() == n,
                self.layout@.len() == n,
                another.taint@.len() == n,
                another.var@.len() == n,
                another.len@.len() == n,
                another.ty@.len() == n,
                another.layout@.len() == n,
                self@ == joined_upto(acc, x, k as int),
            decreases n - k,
        {
            let ghost before = self@;
            self.taint_merge(another, k);
            assert(self@.taint.len() == self.taint@.len());
            assert(self@.layout.len() == self.layout@.len());
            assert(forall|i: int| 0 <= i < n ==> self@.layout[i] == self.layout@[i]@);
            let ghost rows = self.layout@;
            assert(forall|i: int| 0 <= i < n ==> before.layout[i] == rows[i]@);
            assert(before.var == self.var@ && before.len == self.len@ && before.ty == self.ty@);
            let quiet = match self.var[k] {
                IntroVar::Declared => true,
                _ => false,
            } && self.len[k] == 0 && self.ty[k].is_unset() && self.layout[k].len() == 0;
            assert(quiet == silent(acc, k as int)) by {
                assert(before.var[k as int] == acc.var[k as int]);
                assert(before.len[k as int] == acc.len[k as int]);
                assert(before.ty[k as int] == acc.ty[k as int]);
                assert(before.layout[k as int] == acc.layout[k as int]);
            }
            if quiet {
                self.var[k] = another.var[k];
                self.len[k] = another.len[k];
                self.ty[k] = another.ty[k];
                let layout = copy_layout(&another.layout[k]);
                self.layout[k] = layout;
            }
            proof {
                let want = joined_upto(acc, x, k + 1);
                assert forall|i: int| 0 <= i < n implies self@.layout[i] == want.layout[i] by {
                    assert(before.layout[i] == joined_upto(acc, x, k as int).layout[i]);
                    assert(self@.layout[i] == self.layout@[i]@);
                    if i != k {
                        assert(self.layout@[i] == rows[i]);
                    } else {
                        assert(x.layout[i] == another.layout@[i]@);
                        assert(before.layout[i] == acc.layout[i]);
                    }
                }
                assert(before == joined_upto(acc, x, k as int));
                assert(taint_merged(before, x, k as int).taint =~= want.taint);
                assert(self@.taint =~= want.taint);
                assert(self@.var =~= want.var);
                assert(self@.len =~= want.len);
                assert(self@.ty =~= want.ty);
                assert(self@.layout =~= want.layout);
            }
            k += 1;
        }
        proof {
            let want = joined(acc, x);
            assert(self@.taint =~= want.taint);
            assert(self@.var =~= want.var);
            assert(self@.len =~= want.len);
            assert(self@.ty =~= want.ty);
            assert(self@.layout =~= want.layout);
        }
    }
}

/// Whether block `c` is to be joined in: it is a predecessor, and it was not
/// joined in before.
pub open spec fn qualifies(preds: Seq<usize>, skip: Seq<usize>, c: usize) -> bool {
    preds.contains(c) && !skip.contains(c)
}

/// `start` joined with the exit facts of those of the first `upto` blocks of
/// `cands` that qualify, in the order of `cands`.
pub open spec fn fold_preds(
    exits: Seq<SliceView>,
    preds: Seq<usize>,
    cands: Seq<usize>,
    skip: Seq<usize>,
    upto: int,
    start: SliceView,
) -> SliceView
    decreases upto,
{
    if upto <= 0 {
        start
    } else {
        let acc = fold_preds(exits, preds, cands, skip, upto - 1, start);
        let c = cands[upto - 1];
        if qualifies(preds, skip, c) {
            joined(acc, exits[c as int])
        } else {
            acc
        }
    }
}

/// The block numbers below `n`, in order.
pub open spec fn iota(n: nat) -> Seq<usize> {
    Seq::new(n, |i: int| i as usize)
}

/// The entry facts of a block with the predecessors `preds`: nothing known,
/// joined with the exit facts of each predecessor, first those that the
/// traversal order names, in that order, then the others by block number.
pub open spec fn merged_entry(
    exits: Seq<SliceView>,
    preds: Seq<usize>,
    topo: Seq<usize>,
    locals: nat,
) -> SliceView {
    let first = fold_preds(
        exits,
        preds,
        topo,
        Seq::empty(),
        topo.len() as int,
        SliceView::blank(locals),
    );
    fold_preds(exits, preds, iota(exits.len()), topo, exits.len() as int, first)
}

/// Whether `xs` holds `x`.
pub fn list_contains(xs: &Vec<usize>, x: usize) -> (r: bool)
    ensures
        r == xs@.contains(x),
{
    let mut k: usize = 0;
    while k < xs.len()
        invariant
            k <= xs.len(),
            forall|j: int| 0 <= j < k ==> xs@[j] != x,
        decreases xs.len() - k,
    {
        if xs[k] == x {
            return true;
        }
        k += 1;
    }
    false
}

impl IntroFlowContext {
    /// The exit facts of all blocks.
    pub open spec fn exits(self) -> Seq<SliceView> {
        Seq::new(self.taint.pair_graph@.len(), |b: int| self.exit_view(b))
    }

    /// The entry facts of all blocks.
    pub open spec fn entries(self) -> Seq<SliceView> {
        Seq::new(self.taint.pair_graph@.len(), |b: int| self.entry_view(b))
    }

    /// The entry facts that the merge policy gives block `b` from the exit
    /// facts that the store holds for its predecessors.
    pub fn resolve_entry(&mut self, graph: &Graph, b: usize, v_len: usize) -> (r: IcxSliceFroBlock)
        requires
            old(self).wf(graph.pred().len(), v_len as nat),
            b < graph.pred().len(),
            forall|i: int| 0 <= i < graph.topo@.len() ==> (#[trigger] graph.topo@[i]) < graph.pred().len(),
        ensures
            *final(self) == *old(self),
            r@ == merged_entry(old(self).exits(), graph.pred()[b as int], graph.topo@, v_len as nat),
    {
        let n = graph.pre.len();
        let ghost exits = self.exits();
        let ghost preds = graph.pred()[b as int];
        let ghost topo = graph.topo@;
        let ghost blank = SliceView::blank(v_len as nat);
        let mut slice = IcxSliceFroBlock::new_for_block_0(v_len);
        let mut j: usize = 0;
        while j < graph.topo.len()
            invariant
                *self == *old(self),
                exits == self.exits(),
                preds == graph.pred()[b as int],
                topo == graph.topo@,
                n == graph.pred().len(),
                self.wf(n as nat, v_len as nat),
                b < n,
                forall|i: int| 0 <= i < topo.len() ==> (#[trigger] topo[i]) < n,
                j <= topo.len(),
                slice@.wf(v_len as nat),
                slice@ == fold_preds(exits, preds, topo, Seq::empty(), j as int, blank),
            decreases topo.len() - j,
        {
            let c = graph.topo[j];
            if list_contains(&graph.pre[b], c) {
                let x = IcxSliceFroBlock::new_out(self, c);
                assert(x@ == exits[c as int]);
                assert(x@.wf(v_len as nat));
                slice.join(&x);
            }
            j += 1;
        }
        let ghost first = slice@;
        let mut c: usize = 0;
        while c < n
            invariant
                *self == *old(self),
                exits == self.exits(),
                preds == graph.pred()[b as int],
                topo == graph.topo@,
                n == graph.pred().len(),
                exits.len() == n,
                self.wf(n as nat, v_len as nat),
                b < n,
                c <= n,
                slice@.wf(v_len as nat),
                slice@ == fold_preds(exits, preds, iota(n as nat), topo, c as int, first),
            decreases n - c,
        {
            if list_contains(&graph.pre[b], c) && !list_contains(&graph.topo, c) {
                let x = IcxSliceFroBlock::new_out(self, c);
                assert(x@ == exits[c as int]);
                assert(x@.wf(v_len as nat));
                slice.join(&x);
            }
            c += 1;
        }
        slice
    }

    /// Makes the working slice `from` the entry facts of block `to`.
    pub fn derive_entry_from_icx_slice(&mut self, from: IcxSliceFroBlock, to: usize)
        requires
            old(self).has_block(to as int),
        ensures
            final(self).entry_view(to as int) == from@,
            final(self).same_rows(*old(self)),
            forall|b: int| final(self).has_block(b) == old(self).has_block(b),
            forall|b: int|
                old(self).has_block(b) ==> #[trigger] final(self).exit_view(b) == old(
                    self,
                ).exit_view(b),
            forall|b: int|
                old(self).has_block(b) && b != to ==> #[trigger] final(self).entry_view(b) == old(
                    self,
                ).entry_view(b),
            forall|b_len: nat, v_len: nat|
                old(self).wf(b_len, v_len) && from@.wf(v_len) ==> final(self).wf(b_len, v_len),
    {
        self.taint.pair_graph[to].i = from.taint;
        self.var.pair_graph[to].i = from.var;
        self.len.pair_graph[to].i = from.len;
        self.ty.pair_graph[to].i = from.ty;
        self.layout.pair_graph[to].i = from.layout;
    }
}

/// Joining keeps the number of slots.
pub proof fn lemma_joined_shape(acc: SliceView, x: SliceView, n: nat)
    requires
        acc.wf(n),
    ensures
        joined(acc, x).wf(n),
{
}

/// Joining a predecessor in a second time changes nothing.
pub proof fn lemma_join_idempotent(acc: SliceView, x: SliceView, n: nat)
    requires
        acc.wf(n),
    ensures
        joined(joined(acc, x), x) == joined(acc, x),
{
    let once = joined(acc, x);
    let twice = joined(once, x);
    assert forall|k: int| 0 <= k < n implies twice.taint[k] == once.taint[k] && twice.var[k]
        == once.var[k] && twice.len[k] == once.len[k] && twice.ty[k] == once.ty[k]
        && twice.layout[k] == once.layout[k] by {
        assert(acc.taint[k].union(x.taint[k]).union(x.taint[k]) =~= acc.taint[k].union(x.taint[k]));
        if silent(acc, k) {
            assert(once.var[k] == x.var[k] && once.len[k] == x.len[k] && once.ty[k] == x.ty[k]
                && once.layout[k] == x.layout[k]);
        } else {
            assert(once.var[k] == acc.var[k] && once.len[k] == acc.len[k] && once.ty[k]
                == acc.ty[k] && once.layout[k] == acc.layout[k]);
            assert(!silent(once, k));
        }
    }
    assert(twice.taint =~= once.taint);
    assert(twice.var =~= once.var);
    assert(twice.len =~= once.len);
    assert(twice.ty =~= once.ty);
    assert(twice.layout =~= once.layout);
}

/// Joining a slice with itself changes nothing.
pub proof fn lemma_join_self(s: SliceView)
    ensures
        joined(s, s) == s,
{
    let j = joined(s, s);
    assert forall|k: int| 0 <= k < s.taint.len() implies j.taint[k] == s.taint[k] by {
        assert(s.taint[k].union(s.taint[k]) =~= s.taint[k]);
    }
    assert(j.taint =~= s.taint);
    assert(j.var =~= s.var);
    assert(j.len =~= s.len);
    assert(j.ty =~= s.ty);
    assert(j.layout =~= s.layout);
}

/// Merging a slice's own labels into it changes nothing.
pub proof fn lemma_self_merge_is_noop(s: SliceView, u: int)
    requires
        0 <= u < s.taint.len(),
    ensures
        taint_merged(s, s, u) == s,
{
    assert(s.taint[u].union(s.taint[u]) =~= s.taint[u]);
    assert(taint_merged(s, s, u).taint =~= s.taint);
}

/// A slice of which nothing is known, joined with `x`, is `x`.
pub proof fn lemma_join_blank(x: SliceView, n: nat)
    requires
        x.wf(n),
    ensures
        joined(SliceView::blank(n), x) == x,
{
    let j = joined(SliceView::blank(n), x);
    assert forall|k: int| 0 <= k < n implies j.taint[k] == x.taint[k] by {
        assert(Set::<Label>::empty().union(x.taint[k]) =~= x.taint[k]);
    }
    assert(j.taint =~= x.taint);
    assert(j.var =~= x.var);
    assert(j.len =~= x.len);
    assert(j.ty =~= x.ty);
    assert(j.layout =~= x.layout);
}

/// Folding predecessors in keeps the number of slots.
pub proof fn lemma_fold_shape(
    exits: Seq<SliceView>,
    preds: Seq<usize>,
    cands: Seq<usize>,
    skip: Seq<usize>,
    upto: int,
    start: SliceView,
    n: nat,
)
    requires
        start.wf(n),
    ensures
        fold_preds(exits, preds, cands, skip, upto, start).wf(n),
    decreases upto,
{
    if upto > 0 {
        lemma_fold_shape(exits, preds, cands, skip, upto - 1, start, n);
    }
}

/// A label that is there after `lo` candidates is there after `hi`.
proof fn lemma_fold_grows(
    exits: Seq<SliceView>,
    preds: Seq<usize>,
    cands: Seq<usize>,
    skip: Seq<usize>,
    lo: int,
    hi: int,
    start: SliceView,
    n: nat,
    l: int,
    label: Label,
)
    requires
        start.wf(n),
        0 <= l < n,
        0 <= lo <= hi,
        fold_preds(exits, preds, cands, skip, lo, start).taint[l].contains(label),
    ensures
        fold_preds(exits, preds, cands, skip, hi, start).taint[l].contains(label),
    decreases hi,
{
    if lo < hi {
        lemma_fold_grows(exits, preds, cands, skip, lo, hi - 1, start, n, l, label);
        lemma_fold_shape(exits, preds, cands, skip, hi - 1, start, n);
    }
}

/// Merging never drops a label: whatever a predecessor `p` of a block has
/// for local `l` on its exit, the block has for `l` on its entry.
pub proof fn lemma_merge_keeps_labels(
    exits: Seq<SliceView>,
    preds: Seq<usize>,
    topo: Seq<usize>,
    n: nat,
    p: usize,
    l: int,
    label: Label,
)
    requires
        preds.contains(p),
        p < exits.len(),
        0 <= l < n,
        exits[p as int].taint[l].contains(label),
    ensures
        merged_entry(exits, preds, topo, n).taint[l].contains(label),
{
    let blank = SliceView::blank(n);
    let none = Seq::<usize>::empty();
    let first = fold_preds(exits, preds, topo, none, topo.len() as int, blank);
    lemma_fold_shape(exits, preds, topo, none, topo.len() as int, blank, n);
    let all = iota(exits.len());
    if topo.contains(p) {
        let i = choose|i: int| 0 <= i < topo.len() && topo[i] == p;
        assert(qualifies(preds, none, p));
        lemma_fold_shape(exits, preds, topo, none, i, blank, n);
        assert(fold_preds(exits, preds, topo, none, i + 1, blank).taint[l].contains(label));
        lemma_fold_grows(exits, preds, topo, none, i + 1, topo.len() as int, blank, n, l, label);
        lemma_fold_grows(exits, preds, all, topo, 0, exits.len() as int, first, n, l, label);
    } else {
        assert(all[p as int] == p);
        assert(qualifies(preds, topo, p));
        lemma_fold_shape(exits, preds, all, topo, p as int, first, n);
        assert(fold_preds(exits, preds, all, topo, p + 1, first).taint[l].contains(label));
        lemma_fold_grows(exits, preds, all, topo, p + 1, exits.len() as int, first, n, l, label);
    }
}

proof fn lemma_fold_single(
    exits: Seq<SliceView>,
    preds: Seq<usize>,
    cands: Seq<usize>,
    skip: Seq<usize>,
    upto: int,
    start: SliceView,
    p: usize,
)
    requires
        forall|c: usize| qualifies(preds, skip, c) ==> c == p,
        cands.no_duplicates(),
        0 <= upto <= cands.len(),
    ensures
        fold_preds(exits, preds, cands, skip, upto, start) == if cands.take(upto).contains(p)
            && qualifies(preds, skip, p) {
            joined(start, exits[p as int])
        } else {
            start
        },
    decreases upto,
{
    if upto > 0 {
        lemma_fold_single(exits, preds, cands, skip, upto - 1, start, p);
        let c = cands[upto - 1];
        let before = cands.take(upto - 1);
        let now = cands.take(upto);
        assert(now[upto - 1] == c);
        if before.contains(p) {
            let j = choose|j: int| 0 <= j < before.len() && before[j] == p;
            assert(now[j] == p);
            assert(cands[j] == p);
        }
        if now.contains(p) && c != p {
            let j = choose|j: int| 0 <= j < now.len() && now[j] == p;
            assert(before[j] == p);
        }
    }
}

/// Single-predecessor passthrough: a block with exactly one predecessor
/// has on entry, for every fact, what that predecessor has on exit.
pub proof fn lemma_single_pred(exits: Seq<SliceView>, p: usize, topo: Seq<usize>, n: nat)
    requires
        p < exits.len() <= usize::MAX,
        exits[p as int].wf(n),
        topo.no_duplicates(),
    ensures
        merged_entry(exits, seq![p], topo, n) == exits[p as int],
{
    let preds = seq![p];
    let blank = SliceView::blank(n);
    let none = Seq::<usize>::empty();
    let all = iota(exits.len());
    assert(preds[0] == p);
    assert forall|c: usize| preds.contains(c) implies c == p by {
        let j = choose|j: int| 0 <= j < preds.len() && preds[j] == c;
    }
    lemma_fold_single(exits, preds, topo, none, topo.len() as int, blank, p);
    assert(topo.take(topo.len() as int) =~= topo);
    let first = fold_preds(exits, preds, topo, none, topo.len() as int, blank);
    assert(all.no_duplicates());
    lemma_fold_single(exits, preds, all, topo, exits.len() as int, first, p);
    assert(all.take(exits.len() as int) =~= all);
    assert(all[p as int] == p);
    lemma_join_blank(exits[p as int], n);
}

} // verus!
