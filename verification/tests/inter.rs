use flow_analysis::body::{BasicBlock, Body, Statement, Terminator};
use flow_analysis::context::{IcxSliceFroBlock, IntroFlowContext};
use flow_analysis::graph::Graph;
use flow_analysis::inter_visitor::{call_conservatively, fold_summary, summarize};
use flow_analysis::ownership::{AdtOwner, IntroVar, OwnerTag, Taint, TyWithIndex};
use flow_analysis::solver::Reason;
use flow_analysis::{hazard_count, FlowAnalysis, FunctionReport, IntroFlowAnalysis, RlcGlobalCtxt};
use std::collections::HashSet;

fn labels(t: &Taint) -> Vec<u64> {
    let mut v: Vec<u64> = t.set().iter().cloned().collect();
    v.sort();
    v
}

fn blk(statements: Vec<Statement>, terminator: Terminator) -> BasicBlock {
    BasicBlock { statements, terminator, is_cleanup: false }
}

fn source(target: usize, label: u64) -> Statement {
    Statement::Assign { target, operands: vec![], source: Some(label) }
}

fn copy(target: usize, from: usize) -> Statement {
    Statement::Assign { target, operands: vec![from], source: None }
}

#[test]
fn conservative_call_taints_the_result_with_the_arguments_taint() {
    let mut s = IcxSliceFroBlock::new_for_block_0(4);
    s.taint_mut()[1].insert(1);
    s.taint_mut()[2].insert(2);
    s.taint_mut()[3].insert(3);
    s.layout_mut()[3] = vec![OwnerTag::Shared];
    call_conservatively(&mut s, &vec![1, 2], 3);
    assert_eq!(labels(&s.taint()[3]), vec![1, 2, 3]);
    assert_eq!(labels(&s.taint()[1]), vec![1]);
    assert_eq!(s.layout()[3], vec![OwnerTag::Shared]);
    assert_eq!(s.ty(), &vec![TyWithIndex(None); 4]);
    let mut clean = IcxSliceFroBlock::new_for_block_0(2);
    call_conservatively(&mut clean, &vec![1], 0);
    assert!(clean.taint()[0].is_untainted());
    assert!(clean.layout()[0].is_empty());
}

#[test]
fn summary_folds_into_result_and_arguments() {
    let mut s = IcxSliceFroBlock::new_for_block_0(4);
    s.taint_mut()[1].insert(1);
    s.var_mut()[3] = IntroVar::Init(5);
    // callee: local 0 returns, locals 1 and 2 are its parameters
    let mut sum = IcxSliceFroBlock::new_for_block_0(3);
    sum.taint_mut()[0].insert(10);
    sum.taint_mut()[1].insert(11);
    sum.taint_mut()[2].insert(12);
    sum.len_mut()[0] = 4;
    sum.ty_mut()[0] = TyWithIndex(Some(2));
    sum.layout_mut()[0] = vec![OwnerTag::Unique];
    sum.var_mut()[0] = IntroVar::Init(9);
    fold_summary(&mut s, &sum, &vec![1, 2], 3);
    assert_eq!(labels(&s.taint()[1]), vec![1, 11]);
    assert_eq!(labels(&s.taint()[2]), vec![12]);
    assert_eq!(labels(&s.taint()[3]), vec![10]);
    assert!(s.taint()[0].is_untainted());
    assert_eq!(s.len(), &vec![0, 0, 0, 4]);
    assert_eq!(s.ty()[3], TyWithIndex(Some(2)));
    assert_eq!(s.layout()[3], vec![OwnerTag::Unique]);
    assert_eq!(s.var()[3], IntroVar::Init(5));
}

#[test]
fn summary_with_fewer_parameters_than_arguments_and_without_locals() {
    let mut s = IcxSliceFroBlock::new_for_block_0(3);
    let mut sum = IcxSliceFroBlock::new_for_block_0(2);
    sum.taint_mut()[1].insert(11);
    fold_summary(&mut s, &sum, &vec![1, 2, 1], 0);
    assert_eq!(labels(&s.taint()[1]), vec![11]);
    assert!(s.taint()[2].is_untainted());
    let mut t = IcxSliceFroBlock::new_for_block_0(2);
    t.len_mut()[0] = 8;
    fold_summary(&mut t, &IcxSliceFroBlock::new_for_block_0(0), &vec![1], 0);
    assert_eq!(t.len(), &vec![8, 0]);
    assert!(t.taint()[0].is_untainted());
}

#[test]
fn summary_joins_the_returning_blocks() {
    let body = Body {
        local_decls: 1,
        basic_blocks: vec![
            blk(vec![], Terminator::Goto { targets: vec![1, 2] }),
            blk(vec![], Terminator::Return),
            blk(vec![], Terminator::Return),
        ],
    };
    let graph = Graph { e: vec![vec![1, 2], vec![], vec![]], pre: vec![vec![], vec![0], vec![0]], topo: vec![0, 2, 1] };
    let mut icx = IntroFlowContext::new(3, 1);
    let mut zero = IcxSliceFroBlock::new_for_block_0(1);
    zero.taint_mut()[0].insert(100);
    let mut one = IcxSliceFroBlock::new_for_block_0(1);
    one.taint_mut()[0].insert(1);
    one.len_mut()[0] = 5;
    let mut two = IcxSliceFroBlock::new_for_block_0(1);
    two.taint_mut()[0].insert(2);
    two.len_mut()[0] = 6;
    icx.derive_from_icx_slice(zero, 0);
    icx.derive_from_icx_slice(one, 1);
    icx.derive_from_icx_slice(two, 2);
    let sum = summarize(&mut icx, &body, &graph);
    assert_eq!(labels(&sum.taint()[0]), vec![1, 2]);
    assert_eq!(sum.len(), &vec![6]);
}

fn analysed(bodies: Vec<Body>, owner: AdtOwner) -> (FlowAnalysis, Vec<FunctionReport>) {
    for b in bodies.iter() {
        assert!(b.check());
    }
    let mut fa = FlowAnalysis::new(RlcGlobalCtxt::new(bodies, owner));
    let reports = fa.start();
    (fa, reports)
}

fn flow_body(ret_ty: Option<usize>) -> Body {
    let mut statements = vec![source(1, 42), copy(2, 1), copy(0, 2)];
    if let Some(i) = ret_ty {
        statements.push(Statement::Rebind { target: 0, ty: TyWithIndex(Some(i)) });
    }
    Body { local_decls: 3, basic_blocks: vec![blk(statements, Terminator::Return)] }
}

#[test]
fn tainted_return_under_a_unique_layout_is_a_hazard() {
    let owner = AdtOwner::new(vec![vec![OwnerTag::Unique], vec![OwnerTag::Shared]]);
    let (fa, reports) = analysed(vec![flow_body(Some(0))], owner);
    assert_eq!(reports.len(), 1);
    assert_eq!(reports[0].function, 0);
    assert_eq!(reports[0].diagnostics.len(), 1);
    let d = reports[0].diagnostics[0];
    assert_eq!((d.function, d.block, d.local, d.reason), (0, 0, 0, Reason::Hazard));
    assert_eq!(hazard_count(&reports), 1);
    assert!(fa.fn_set().contains(&0));
    assert_eq!(fa.mir_graph().get(&0).unwrap().get_topo(), &vec![0]);
}

#[test]
fn tainted_return_under_another_layout_is_clean() {
    let owner = AdtOwner::new(vec![vec![OwnerTag::Unique], vec![OwnerTag::Shared, OwnerTag::Borrowed]]);
    let (_, shared) = analysed(vec![flow_body(Some(1))], owner);
    assert_eq!(shared.len(), 1);
    assert!(shared[0].diagnostics.is_empty());
    assert_eq!(hazard_count(&shared), 0);
    let (_, none) = analysed(vec![flow_body(None)], AdtOwner::new(Vec::new()));
    assert!(none[0].diagnostics.is_empty());
    let (_, unknown) = analysed(vec![flow_body(Some(7))], AdtOwner::new(Vec::new()));
    assert!(unknown[0].diagnostics.is_empty());
}

#[test]
fn intro_fills_the_store_of_each_function() {
    let mut fa = FlowAnalysis::new(RlcGlobalCtxt::new(vec![flow_body(None)], AdtOwner::new(Vec::new())));
    fa.order();
    let facts = fa.intro();
    assert_eq!(facts.len(), 1);
    assert_eq!(facts[0].function, 0);
    let exit = &facts[0].icx.taint().get_g()[0];
    assert_eq!(labels(&exit.get_o()[0]), vec![42]);
    assert_eq!(labels(&exit.get_o()[1]), vec![42]);
    assert_eq!(labels(&exit.get_o()[2]), vec![42]);
    assert!(exit.get_i()[0].is_untainted());
    let again = fa.intro();
    assert!(again.is_empty());
}

#[test]
fn join_block_entry_has_exactly_the_label_of_the_tainted_branch() {
    // block 0 branches to 1 and 2; 1 leaves z (local 1) alone, 2 taints it; both go on to 3
    let body = Body {
        local_decls: 2,
        basic_blocks: vec![
            blk(vec![], Terminator::Goto { targets: vec![1, 2] }),
            blk(vec![Statement::Nop], Terminator::Goto { targets: vec![3] }),
            blk(vec![source(1, 7)], Terminator::Goto { targets: vec![3] }),
            blk(vec![copy(0, 1)], Terminator::Return),
        ],
    };
    let mut fa = FlowAnalysis::new(RlcGlobalCtxt::new(vec![body], AdtOwner::new(Vec::new())));
    fa.order();
    let facts = fa.intro();
    let taint = facts[0].icx.taint().get_g();
    assert_eq!(labels(&taint[3].get_i()[1]), vec![7]);
    assert!(taint[3].get_i()[0].is_untainted());
    assert_eq!(labels(&taint[3].get_o()[0]), vec![7]);
    assert!(taint[1].get_o()[1].is_untainted());
    // single predecessor: entry of block 2 is the exit of block 0
    assert!(taint[2].get_i()[1].is_untainted());
}

#[test]
fn cleanup_blocks_are_not_walked() {
    let body = Body {
        local_decls: 1,
        basic_blocks: vec![
            blk(vec![], Terminator::Goto { targets: vec![1, 2] }),
            blk(vec![], Terminator::Return),
            BasicBlock { statements: vec![source(0, 5)], terminator: Terminator::Goto { targets: vec![1] }, is_cleanup: true },
        ],
    };
    let mut fa = FlowAnalysis::new(RlcGlobalCtxt::new(vec![body], AdtOwner::new(Vec::new())));
    fa.order();
    let facts = fa.intro();
    let taint = facts[0].icx.taint().get_g();
    assert!(taint[2].get_o()[0].is_untainted());
    assert!(taint[1].get_i()[0].is_untainted());
}

fn caller_and_callee() -> Vec<Body> {
    // function 0: x (local 1) is a source; local 2 = f1(x); returns local 2
    let caller = Body {
        local_decls: 3,
        basic_blocks: vec![
            blk(vec![source(1, 1)], Terminator::Call { callee: 1, args: vec![1], dest: 2, targets: vec![1] }),
            blk(vec![copy(0, 2)], Terminator::Return),
        ],
    };
    // function 1: taints its parameter and what it returns, which has layout 0
    let callee = Body {
        local_decls: 2,
        basic_blocks: vec![blk(
            vec![source(0, 20), source(1, 21), Statement::Rebind { target: 0, ty: TyWithIndex(Some(0)) }, Statement::Construct { target: 0 }, Statement::Resize { target: 0, change: flow_analysis::body::LenChange::Grow(3) }],
            Terminator::Return,
        )],
    };
    vec![caller, callee]
}

#[test]
fn call_folds_the_callees_result_into_the_caller() {
    let owner = AdtOwner::new(vec![vec![OwnerTag::Shared]]);
    let mut fa = FlowAnalysis::new(RlcGlobalCtxt::new(caller_and_callee(), owner));
    fa.order();
    let facts = fa.intro();
    // the callee was entered from the caller, so it has no facts of its own
    assert_eq!(facts.len(), 1);
    assert_eq!(facts[0].function, 0);
    assert!(fa.fn_set().contains(&0) && fa.fn_set().contains(&1));
    let icx = &facts[0].icx;
    let exit0 = &icx.taint().get_g()[0];
    assert_eq!(labels(&exit0.get_o()[1]), vec![1, 21]);
    assert_eq!(labels(&exit0.get_o()[2]), vec![20]);
    assert_eq!(icx.layout().get_g()[0].get_o()[2], vec![OwnerTag::Shared]);
    assert_eq!(icx.ty().get_g()[0].get_o()[2], TyWithIndex(Some(0)));
    assert_eq!(icx.len().get_g()[0].get_o()[2], 3);
    assert_eq!(labels(&icx.taint().get_g()[1].get_o()[0]), vec![20]);
}

#[test]
fn call_to_a_function_without_a_body_is_conservative() {
    let body = Body {
        local_decls: 3,
        basic_blocks: vec![
            blk(vec![source(1, 1)], Terminator::Call { callee: 5, args: vec![1], dest: 2, targets: vec![1] }),
            blk(vec![], Terminator::Return),
        ],
    };
    let mut fa = FlowAnalysis::new(RlcGlobalCtxt::new(vec![body], AdtOwner::new(Vec::new())));
    fa.order();
    let facts = fa.intro();
    assert_eq!(labels(&facts[0].icx.taint().get_g()[0].get_o()[2]), vec![1]);
    assert!(!fa.fn_set().contains(&5));
}

fn mutual() -> Vec<Body> {
    // function 0 calls function 1, function 1 calls function 0
    let a = Body {
        local_decls: 3,
        basic_blocks: vec![
            blk(vec![], Terminator::Call { callee: 1, args: vec![1], dest: 2, targets: vec![1] }),
            blk(vec![copy(0, 2)], Terminator::Return),
        ],
    };
    let b = Body {
        local_decls: 3,
        basic_blocks: vec![
            blk(vec![source(1, 30)], Terminator::Call { callee: 0, args: vec![1], dest: 2, targets: vec![1] }),
            blk(vec![copy(0, 2)], Terminator::Return),
        ],
    };
    vec![a, b]
}

#[test]
fn mutual_recursion_ends_and_falls_back() {
    let (fa, reports) = analysed(mutual(), AdtOwner::new(vec![vec![OwnerTag::Unique]]));
    assert_eq!(reports.len(), 1);
    assert_eq!(reports[0].function, 0);
    assert!(reports[0].diagnostics.is_empty());
    assert!(fa.fn_set().contains(&0) && fa.fn_set().contains(&1));
    assert_eq!(fa.fn_set().len(), 2);
}

#[test]
fn call_back_into_an_entered_function_taints_by_its_arguments_only() {
    let mut fa = FlowAnalysis::new(RlcGlobalCtxt::new(mutual(), AdtOwner::new(Vec::new())));
    fa.order();
    let mut entered = HashSet::new();
    entered.insert(0usize);
    entered.insert(1usize);
    let mut b = IntroFlowAnalysis::new(fa.rcx(), 1, entered);
    assert_eq!(b.did(), 1);
    assert_eq!(b.body().local_decls, 3);
    assert_eq!(b.graph().get_topo(), &vec![0, 1]);
    assert!(b.owner().layouts.is_empty());
    assert_eq!(b.rcx().bodies().len(), 2);
    b.visit();
    let exit0 = &b.icx().taint().get_g()[0];
    assert_eq!(labels(&exit0.get_o()[2]), vec![30]);
    assert!(b.icx().layout().get_g()[0].get_o()[2].is_empty());
    assert_eq!(b.icx().ty().get_g()[0].get_o()[2], TyWithIndex(None));
    assert_eq!(labels(&b.icx().taint().get_g()[1].get_o()[0]), vec![30]);
    assert_eq!(b.unique().len(), 2);
    assert_eq!(labels(&b.icx_slice().taint()[0]), vec![30]);
}

#[test]
fn self_recursion_ends() {
    let body = Body {
        local_decls: 2,
        basic_blocks: vec![
            blk(vec![source(1, 3)], Terminator::Call { callee: 0, args: vec![1], dest: 0, targets: vec![1] }),
            blk(vec![], Terminator::Return),
        ],
    };
    let mut fa = FlowAnalysis::new(RlcGlobalCtxt::new(vec![body], AdtOwner::new(Vec::new())));
    fa.order();
    let facts = fa.intro();
    assert_eq!(labels(&facts[0].icx.taint().get_g()[1].get_o()[0]), vec![3]);
}

#[test]
fn analysis_getters_and_mut_getters() {
    let mut fa = FlowAnalysis::new(RlcGlobalCtxt::new(vec![flow_body(None)], AdtOwner::new(Vec::new())));
    assert!(fa.fn_set().is_empty());
    assert!(fa.mir_graph().is_empty());
    fa.fn_set_mut().insert(3);
    assert!(fa.fn_set().contains(&3));
    fa.mir_graph_mut().insert(0, Graph::new(1));
    assert_eq!(fa.rcx().mir_graph().len(), 1);
    fa.rcx_mut().mir_graph_mut().clear();
    assert!(fa.mir_graph().is_empty());
    assert_eq!(fa.rcx().bodies().len(), 1);
    assert!(fa.rcx().adt_owner().layouts.is_empty());
    fa.order();
    let mut a = IntroFlowAnalysis::new(fa.rcx(), 0, HashSet::new());
    a.unique_mut().insert(0);
    a.icx_mut().len_mut().get_g_mut()[0].get_i_mut()[0] = 0;
    a.icx_slice_mut().len_mut()[0] = 0;
    assert!(a.unique().contains(&0));
    a.visit();
    assert_eq!(labels(&a.icx().taint().get_g()[0].get_o()[0]), vec![42]);
}

#[test]
fn a_program_without_functions_reports_nothing() {
    let (fa, reports) = analysed(Vec::new(), AdtOwner::new(Vec::new()));
    assert!(reports.is_empty());
    assert_eq!(hazard_count(&reports), 0);
    assert!(fa.fn_set().is_empty());
}

#[test]
fn hazards_are_counted_by_function() {
    let owner = AdtOwner::new(vec![vec![OwnerTag::Unique]]);
    let (_, reports) = analysed(vec![flow_body(Some(0)), flow_body(None), flow_body(Some(0))], owner);
    assert_eq!(reports.len(), 3);
    assert_eq!(hazard_count(&reports), 2);
    assert_eq!(reports[2].diagnostics[0].function, 2);
    assert!(reports[1].diagnostics.is_empty());
}

#[test]
fn two_pushes_in_a_walked_block_give_length_two_at_its_exit() {
    // block 1 builds the collection in local 1; block 0 leaves another length there
    let body = Body {
        local_decls: 2,
        basic_blocks: vec![
            blk(
                vec![Statement::Construct { target: 1 }, Statement::Resize { target: 1, change: flow_analysis::body::LenChange::Grow(7) }],
                Terminator::Goto { targets: vec![1] },
            ),
            blk(
                vec![
                    Statement::Construct { target: 1 },
                    Statement::Resize { target: 1, change: flow_analysis::body::LenChange::Grow(1) },
                    Statement::Resize { target: 1, change: flow_analysis::body::LenChange::Grow(1) },
                    source(0, 3),
                ],
                Terminator::Return,
            ),
        ],
    };
    let mut fa = FlowAnalysis::new(RlcGlobalCtxt::new(vec![body], AdtOwner::new(Vec::new())));
    fa.order();
    let facts = fa.intro();
    assert_eq!(facts[0].icx.len().get_g()[1].get_i()[1], 7);
    assert_eq!(facts[0].icx.len().get_g()[1].get_o()[1], 2);
}

#[test]
fn the_return_local_carries_exactly_the_label_of_the_source() {
    // block 0 taints other locals; block 1 holds x = source, y = x, r = y among other statements
    let body = Body {
        local_decls: 5,
        basic_blocks: vec![
            blk(vec![source(4, 9), copy(3, 4)], Terminator::Goto { targets: vec![1] }),
            blk(
                vec![Statement::Nop, source(1, 42), copy(3, 1), copy(2, 1), Statement::Construct { target: 2 }, copy(0, 2)],
                Terminator::Return,
            ),
        ],
    };
    let mut fa = FlowAnalysis::new(RlcGlobalCtxt::new(vec![body], AdtOwner::new(Vec::new())));
    fa.order();
    let facts = fa.intro();
    let exit = facts[0].icx.taint().get_g()[1].get_o();
    assert_eq!(labels(&exit[0]), vec![42]);
    assert_eq!(labels(&exit[1]), vec![42]);
    assert_eq!(labels(&exit[2]), vec![42]);
    assert_eq!(labels(&exit[3]), vec![9, 42]);
}
