use flow_analysis::context::{
    copy_layouts, copy_lens, copy_taints, copy_tys, copy_vars, defaults, IcxSliceFroBlock,
    IntroFlowContext,
};
use flow_analysis::graph::Graph;
use flow_analysis::merge::list_contains;
use flow_analysis::ownership::{IntroVar, OwnerTag, Taint, TyWithIndex};
use flow_analysis::{IOPairForGraph, InOutPair};

fn taint_of(labels: &[u64]) -> Taint {
    let mut t = Taint::default();
    for l in labels {
        t.insert(*l);
    }
    t
}

fn labels(t: &Taint) -> Vec<u64> {
    let mut v: Vec<u64> = t.set().iter().cloned().collect();
    v.sort();
    v
}

#[test]
fn in_out_pair_starts_with_defaults() {
    let mut p: InOutPair<usize> = InOutPair::new(3);
    assert_eq!(p.len(), 3);
    assert_eq!(p.get_i(), &vec![0, 0, 0]);
    assert_eq!(p.get_o(), &vec![0, 0, 0]);
    p.get_i_mut()[1] = 5;
    p.get_o_mut()[2] = 7;
    assert_eq!(p.get_i(), &vec![0, 5, 0]);
    assert_eq!(p.get_o(), &vec![0, 0, 7]);
    let e: InOutPair<IntroVar> = InOutPair::new(0);
    assert_eq!(e.len(), 0);
}

#[test]
fn pair_graph_has_one_pair_for_each_block() {
    let mut g: IOPairForGraph<TyWithIndex> = IOPairForGraph::new(2, 3);
    assert_eq!(g.get_g().len(), 2);
    assert_eq!(g.get_g()[1].get_o(), &vec![TyWithIndex(None); 3]);
    g.get_g_mut()[0].get_i_mut()[2] = TyWithIndex(Some(4));
    assert_eq!(g.get_g()[0].get_i()[2], TyWithIndex(Some(4)));
    assert_eq!(g.get_g()[1].get_i()[2], TyWithIndex(None));
}

#[test]
fn defaults_and_copies() {
    let d: Vec<IntroVar> = defaults(2);
    assert_eq!(d, vec![IntroVar::Declared, IntroVar::Declared]);
    assert_eq!(copy_vars(&vec![IntroVar::Init(3), IntroVar::Unsupported]), vec![IntroVar::Init(3), IntroVar::Unsupported]);
    assert_eq!(copy_lens(&vec![1, 2]), vec![1, 2]);
    assert_eq!(copy_tys(&vec![TyWithIndex(Some(1))]), vec![TyWithIndex(Some(1))]);
    assert_eq!(copy_layouts(&vec![vec![OwnerTag::Unique], vec![]]), vec![vec![OwnerTag::Unique], vec![]]);
    let t = copy_taints(&vec![taint_of(&[1, 2]), taint_of(&[])]);
    assert_eq!(labels(&t[0]), vec![1, 2]);
    assert!(t[1].is_untainted());
}

#[test]
fn block_0_slice_knows_nothing() {
    let s = IcxSliceFroBlock::new_for_block_0(2);
    assert_eq!(s.taint().len(), 2);
    assert!(s.taint()[0].is_untainted() && s.taint()[1].is_untainted());
    assert_eq!(s.var(), &vec![IntroVar::Declared; 2]);
    assert_eq!(s.len(), &vec![0, 0]);
    assert_eq!(s.ty(), &vec![TyWithIndex(None); 2]);
    assert_eq!(s.layout(), &vec![Vec::<OwnerTag>::new(); 2]);
    let d = IcxSliceFroBlock::default();
    assert!(d.taint().is_empty() && d.layout().is_empty());
}

#[test]
fn new_store_is_blank_everywhere() {
    let mut icx = IntroFlowContext::new(2, 3);
    assert_eq!(icx.taint().get_g().len(), 2);
    assert_eq!(icx.var().get_g()[1].get_i(), &vec![IntroVar::Declared; 3]);
    assert_eq!(icx.len().get_g()[0].get_o(), &vec![0; 3]);
    assert_eq!(icx.ty().get_g()[1].get_o(), &vec![TyWithIndex(None); 3]);
    assert_eq!(icx.layout().get_g()[0].get_i(), &vec![Vec::<OwnerTag>::new(); 3]);
    let s = IcxSliceFroBlock::new_in(&mut icx, 1);
    assert!(s.taint().iter().all(|t| t.is_untainted()));
    assert_eq!(s.len(), &vec![0; 3]);
}

#[test]
fn store_mut_getters_reach_the_rows() {
    let mut icx = IntroFlowContext::new(1, 1);
    icx.taint_mut().get_g_mut()[0].get_o_mut()[0].insert(9);
    icx.var_mut().get_g_mut()[0].get_o_mut()[0] = IntroVar::Init(1);
    icx.len_mut().get_g_mut()[0].get_o_mut()[0] = 4;
    icx.ty_mut().get_g_mut()[0].get_o_mut()[0] = TyWithIndex(Some(2));
    icx.layout_mut().get_g_mut()[0].get_o_mut()[0].push(OwnerTag::Shared);
    let s = IcxSliceFroBlock::new_out(&mut icx, 0);
    assert_eq!(labels(&s.taint()[0]), vec![9]);
    assert_eq!(s.var(), &vec![IntroVar::Init(1)]);
    assert_eq!(s.len(), &vec![4]);
    assert_eq!(s.ty(), &vec![TyWithIndex(Some(2))]);
    assert_eq!(s.layout(), &vec![vec![OwnerTag::Shared]]);
    let i = IcxSliceFroBlock::new_in(&mut icx, 0);
    assert!(i.taint()[0].is_untainted());
    assert_eq!(i.len(), &vec![0]);
}

fn sample_slice() -> IcxSliceFroBlock {
    let mut s = IcxSliceFroBlock::new_for_block_0(2);
    s.taint_mut()[1].insert(5);
    s.var_mut()[0] = IntroVar::Init(8);
    s.len_mut()[1] = 3;
    s.ty_mut()[0] = TyWithIndex(Some(1));
    s.layout_mut()[0] = vec![OwnerTag::Unique, OwnerTag::Borrowed];
    s
}

fn same_slice(a: &IcxSliceFroBlock, b: &IcxSliceFroBlock) -> bool {
    a.taint().len() == b.taint().len()
        && a.taint().iter().zip(b.taint().iter()).all(|(x, y)| labels(x) == labels(y))
        && a.var() == b.var()
        && a.len() == b.len()
        && a.ty() == b.ty()
        && a.layout() == b.layout()
}

#[test]
fn slice_goes_to_the_exit_row_and_comes_back() {
    let mut icx = IntroFlowContext::new(3, 2);
    icx.derive_from_icx_slice(sample_slice(), 1);
    let back = IcxSliceFroBlock::new_out(&mut icx, 1);
    assert!(same_slice(&back, &sample_slice()));
    let untouched = IcxSliceFroBlock::new_out(&mut icx, 0);
    assert!(same_slice(&untouched, &IcxSliceFroBlock::new_for_block_0(2)));
    let entry = IcxSliceFroBlock::new_in(&mut icx, 1);
    assert!(same_slice(&entry, &IcxSliceFroBlock::new_for_block_0(2)));
}

#[test]
fn entry_is_derived_from_the_exit_of_the_pre_node() {
    let mut icx = IntroFlowContext::new(3, 2);
    icx.derive_from_icx_slice(sample_slice(), 0);
    icx.derive_from_pre_node(0, 2);
    let entry = IcxSliceFroBlock::new_in(&mut icx, 2);
    assert!(same_slice(&entry, &sample_slice()));
    let other = IcxSliceFroBlock::new_in(&mut icx, 1);
    assert!(same_slice(&other, &IcxSliceFroBlock::new_for_block_0(2)));
    let exit = IcxSliceFroBlock::new_out(&mut icx, 2);
    assert!(same_slice(&exit, &IcxSliceFroBlock::new_for_block_0(2)));
}

#[test]
fn slice_goes_to_the_entry_row() {
    let mut icx = IntroFlowContext::new(2, 2);
    icx.derive_entry_from_icx_slice(sample_slice(), 1);
    assert!(same_slice(&IcxSliceFroBlock::new_in(&mut icx, 1), &sample_slice()));
    assert!(same_slice(&IcxSliceFroBlock::new_out(&mut icx, 1), &IcxSliceFroBlock::new_for_block_0(2)));
}

#[test]
fn slice_clone_is_a_copy() {
    let s = sample_slice();
    let mut c = s.clone();
    assert!(same_slice(&c, &s));
    c.taint_mut()[0].insert(1);
    assert!(s.taint()[0].is_untainted());
}

#[test]
fn taint_merge_is_union_at_one_local() {
    let mut a = IcxSliceFroBlock::new_for_block_0(3);
    a.taint_mut()[0].insert(1);
    a.taint_mut()[1].insert(2);
    let mut b = IcxSliceFroBlock::new_for_block_0(3);
    b.taint_mut()[0].insert(3);
    b.taint_mut()[1].insert(4);
    b.taint_mut()[2].insert(5);
    a.taint_merge(&b, 0);
    assert_eq!(labels(&a.taint()[0]), vec![1, 3]);
    assert_eq!(labels(&a.taint()[1]), vec![2]);
    assert!(a.taint()[2].is_untainted());
    a.taint_merge(&b, 2);
    assert_eq!(labels(&a.taint()[2]), vec![5]);
    let clean = IcxSliceFroBlock::new_for_block_0(3);
    a.taint_merge(&clean, 1);
    assert_eq!(labels(&a.taint()[1]), vec![2]);
}

#[test]
fn merging_a_slice_into_itself_changes_nothing() {
    let mut a = sample_slice();
    let own = a.clone();
    a.taint_merge(&own, 1);
    a.taint_merge(&own, 0);
    assert!(same_slice(&a, &sample_slice()));
    a.taint_merge(&own, 1);
    assert!(same_slice(&a, &sample_slice()));
}

#[test]
fn join_takes_taint_from_both_and_other_facts_from_the_first_that_has_them() {
    let mut acc = IcxSliceFroBlock::new_for_block_0(2);
    acc.taint_mut()[0].insert(1);
    acc.len_mut()[0] = 4;
    let mut x = IcxSliceFroBlock::new_for_block_0(2);
    x.taint_mut()[0].insert(2);
    x.len_mut()[0] = 9;
    x.len_mut()[1] = 6;
    x.var_mut()[1] = IntroVar::Init(3);
    x.ty_mut()[1] = TyWithIndex(Some(0));
    x.layout_mut()[1] = vec![OwnerTag::Shared];
    acc.join(&x);
    assert_eq!(labels(&acc.taint()[0]), vec![1, 2]);
    assert_eq!(acc.len(), &vec![4, 6]);
    assert_eq!(acc.var(), &vec![IntroVar::Declared, IntroVar::Init(3)]);
    assert_eq!(acc.ty(), &vec![TyWithIndex(None), TyWithIndex(Some(0))]);
    assert_eq!(acc.layout(), &vec![vec![], vec![OwnerTag::Shared]]);
    let once = acc.clone();
    acc.join(&x);
    assert!(same_slice(&acc, &once));
}

fn join_graph() -> Graph {
    // blocks 1 and 2 both lead to block 3
    Graph { e: vec![vec![1, 2], vec![3], vec![3], vec![]], pre: vec![vec![], vec![0], vec![0], vec![1, 2]], topo: vec![0, 2, 1, 3] }
}

#[test]
fn join_point_has_the_union_of_its_predecessors_taint() {
    let mut icx = IntroFlowContext::new(4, 2);
    let clean = IcxSliceFroBlock::new_for_block_0(2);
    let mut tainted = IcxSliceFroBlock::new_for_block_0(2);
    tainted.taint_mut()[1].insert(77);
    icx.derive_from_icx_slice(clean, 1);
    icx.derive_from_icx_slice(tainted, 2);
    let entry = icx.resolve_entry(&join_graph(), 3, 2);
    assert_eq!(labels(&entry.taint()[1]), vec![77]);
    assert!(entry.taint()[0].is_untainted());
}

#[test]
fn merged_entry_keeps_every_label_of_every_predecessor() {
    let mut icx = IntroFlowContext::new(4, 1);
    let mut a = IcxSliceFroBlock::new_for_block_0(1);
    a.taint_mut()[0].insert(1);
    a.taint_mut()[0].insert(2);
    let mut b = IcxSliceFroBlock::new_for_block_0(1);
    b.taint_mut()[0].insert(2);
    b.taint_mut()[0].insert(3);
    icx.derive_from_icx_slice(a, 1);
    icx.derive_from_icx_slice(b, 2);
    let entry = icx.resolve_entry(&join_graph(), 3, 1);
    assert_eq!(labels(&entry.taint()[0]), vec![1, 2, 3]);
}

#[test]
fn other_facts_come_from_the_predecessor_first_in_the_order() {
    let mut icx = IntroFlowContext::new(4, 2);
    let mut one = IcxSliceFroBlock::new_for_block_0(2);
    one.len_mut()[0] = 11;
    one.len_mut()[1] = 12;
    let mut two = IcxSliceFroBlock::new_for_block_0(2);
    two.len_mut()[0] = 21;
    icx.derive_from_icx_slice(one, 1);
    icx.derive_from_icx_slice(two, 2);
    // block 2 stands before block 1 in the order
    let entry = icx.resolve_entry(&join_graph(), 3, 2);
    assert_eq!(entry.len(), &vec![21, 12]);
}

#[test]
fn predecessors_outside_the_order_come_last_by_number() {
    let mut g = join_graph();
    g.topo = vec![0, 3];
    let mut icx = IntroFlowContext::new(4, 1);
    let mut one = IcxSliceFroBlock::new_for_block_0(1);
    one.len_mut()[0] = 11;
    one.taint_mut()[0].insert(1);
    let mut two = IcxSliceFroBlock::new_for_block_0(1);
    two.len_mut()[0] = 21;
    two.taint_mut()[0].insert(2);
    icx.derive_from_icx_slice(one, 1);
    icx.derive_from_icx_slice(two, 2);
    let entry = icx.resolve_entry(&g, 3, 1);
    assert_eq!(entry.len(), &vec![11]);
    assert_eq!(labels(&entry.taint()[0]), vec![1, 2]);
}

#[test]
fn single_predecessor_passes_its_exit_through() {
    let mut icx = IntroFlowContext::new(4, 2);
    icx.derive_from_icx_slice(sample_slice(), 0);
    let entry = icx.resolve_entry(&join_graph(), 1, 2);
    assert!(same_slice(&entry, &sample_slice()));
    let none = icx.resolve_entry(&join_graph(), 0, 2);
    assert!(same_slice(&none, &IcxSliceFroBlock::new_for_block_0(2)));
}

#[test]
fn list_contains_finds_what_is_there() {
    assert!(list_contains(&vec![3, 1, 2], 1));
    assert!(!list_contains(&vec![3, 1, 2], 0));
    assert!(!list_contains(&Vec::new(), 0));
}

#[test]
fn the_four_other_facts_come_from_one_predecessor_together() {
    // the first predecessor has a type and no layout, the second another type and a layout
    let mut acc = IcxSliceFroBlock::new_for_block_0(2);
    acc.ty_mut()[0] = TyWithIndex(Some(3));
    let mut x = IcxSliceFroBlock::new_for_block_0(2);
    x.ty_mut()[0] = TyWithIndex(Some(4));
    x.layout_mut()[0] = vec![OwnerTag::Unique];
    x.len_mut()[0] = 5;
    x.var_mut()[0] = IntroVar::Init(1);
    x.taint_mut()[0].insert(9);
    x.layout_mut()[1] = vec![OwnerTag::Shared];
    acc.join(&x);
    assert_eq!(acc.ty(), &vec![TyWithIndex(Some(3)), TyWithIndex(None)]);
    assert_eq!(acc.layout(), &vec![vec![], vec![OwnerTag::Shared]]);
    assert_eq!(acc.len(), &vec![0, 0]);
    assert_eq!(acc.var(), &vec![IntroVar::Declared, IntroVar::Declared]);
    assert_eq!(labels(&acc.taint()[0]), vec![9]);
}

#[test]
fn merged_entry_pairs_a_type_with_its_own_layout() {
    let mut icx = IntroFlowContext::new(4, 1);
    let mut one = IcxSliceFroBlock::new_for_block_0(1);
    one.ty_mut()[0] = TyWithIndex(Some(4));
    one.layout_mut()[0] = vec![OwnerTag::Unique];
    let mut two = IcxSliceFroBlock::new_for_block_0(1);
    two.ty_mut()[0] = TyWithIndex(Some(3));
    icx.derive_from_icx_slice(one, 1);
    icx.derive_from_icx_slice(two, 2);
    // block 2 stands before block 1 in the order
    let entry = icx.resolve_entry(&join_graph(), 3, 1);
    assert_eq!(entry.ty(), &vec![TyWithIndex(Some(3))]);
    assert_eq!(entry.layout(), &vec![Vec::<OwnerTag>::new()]);
}
