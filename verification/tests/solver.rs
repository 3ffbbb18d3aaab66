use flow_analysis::body::{BasicBlock, Body, Terminator};
use flow_analysis::context::{IcxSliceFroBlock, IntroFlowContext};
use flow_analysis::graph::Graph;
use flow_analysis::ownership::{OwnerTag, Taint};
use flow_analysis::solver::{check_function, decide, solving_for_model, Diagnostic, Query, Reason, Verdict};
use flow_analysis::{IcxSliceDisplay, Z3GoalDisplay};

fn taint_of(labels: &[u64]) -> Taint {
    let mut t = Taint::default();
    for l in labels {
        t.insert(*l);
    }
    t
}

#[test]
fn solver_finds_the_set_that_holds_one() {
    assert_eq!(solving_for_model(), Verdict::Sat);
}

#[test]
fn query_holds_the_labels_and_the_demand() {
    let q = Query::new(&taint_of(&[3, 4]), &vec![OwnerTag::Borrowed, OwnerTag::Unique]);
    assert!(q.must_be_clean);
    assert!(q.labels.contains(3) && q.labels.contains(4));
    assert_eq!(q.labels.count(), 2);
    let r = Query::new(&taint_of(&[]), &vec![OwnerTag::Shared]);
    assert!(!r.must_be_clean);
    assert!(r.labels.is_untainted());
}

#[test]
fn taint_under_a_unique_layout_cannot_hold() {
    assert_eq!(Query::new(&taint_of(&[1]), &vec![OwnerTag::Unique]).solve(), Verdict::Unsat);
    assert_eq!(Query::new(&taint_of(&[1, 2, 3]), &vec![OwnerTag::Shared, OwnerTag::Unique]).solve(), Verdict::Unsat);
    assert_eq!(Query::new(&taint_of(&[u64::MAX]), &vec![OwnerTag::Unique]).solve(), Verdict::Unsat);
}

#[test]
fn other_configurations_can_hold() {
    assert_eq!(Query::new(&taint_of(&[]), &vec![OwnerTag::Unique]).solve(), Verdict::Sat);
    assert_eq!(Query::new(&taint_of(&[1, 2]), &vec![OwnerTag::Shared]).solve(), Verdict::Sat);
    assert_eq!(Query::new(&taint_of(&[1]), &vec![]).solve(), Verdict::Sat);
    assert_eq!(Query::new(&taint_of(&[]), &vec![]).solve(), Verdict::Sat);
    assert_eq!(Query::new(&taint_of(&[0]), &vec![OwnerTag::Irrelevant, OwnerTag::Borrowed]).solve(), Verdict::Sat);
}

#[test]
fn verdicts_become_findings() {
    assert_eq!(decide(Verdict::Sat, 1, 2, 3), None);
    assert_eq!(decide(Verdict::Unsat, 1, 2, 3), Some(Diagnostic { function: 1, block: 2, local: 3, reason: Reason::Hazard }));
    assert_eq!(decide(Verdict::Unknown, 4, 5, 6), Some(Diagnostic { function: 4, block: 5, local: 6, reason: Reason::Undecided }));
}

#[test]
fn only_returning_blocks_are_checked_and_in_order() {
    let body = Body {
        local_decls: 2,
        basic_blocks: vec![
            BasicBlock { statements: vec![], terminator: Terminator::Goto { targets: vec![1, 2] }, is_cleanup: false },
            BasicBlock { statements: vec![], terminator: Terminator::Return, is_cleanup: false },
            BasicBlock { statements: vec![], terminator: Terminator::Return, is_cleanup: false },
        ],
    };
    let graph = Graph { e: vec![vec![1, 2], vec![], vec![]], pre: vec![vec![], vec![0], vec![0]], topo: vec![0, 2, 1] };
    let mut icx = IntroFlowContext::new(3, 2);
    let mut bad = IcxSliceFroBlock::new_for_block_0(2);
    bad.taint_mut()[0].insert(1);
    bad.layout_mut()[0] = vec![OwnerTag::Unique];
    bad.taint_mut()[1].insert(2);
    bad.layout_mut()[1] = vec![OwnerTag::Unique];
    icx.derive_from_icx_slice(bad.clone(), 0);
    icx.derive_from_icx_slice(bad.clone(), 1);
    let mut half = IcxSliceFroBlock::new_for_block_0(2);
    half.taint_mut()[1].insert(2);
    half.layout_mut()[1] = vec![OwnerTag::Unique];
    half.layout_mut()[0] = vec![OwnerTag::Unique];
    icx.derive_from_icx_slice(half, 2);
    let found = check_function(&mut icx, &body, &graph, 9);
    let sites: Vec<(usize, usize, usize, Reason)> = found.iter().map(|d| (d.function, d.block, d.local, d.reason)).collect();
    assert_eq!(sites, vec![(9, 2, 1, Reason::Hazard), (9, 1, 0, Reason::Hazard), (9, 1, 1, Reason::Hazard)]);
}

#[test]
fn display_toggles_follow_presence() {
    assert_eq!(Z3GoalDisplay::from_presence(true), Z3GoalDisplay::Verbose);
    assert_eq!(Z3GoalDisplay::from_presence(false), Z3GoalDisplay::Disabled);
    assert!(Z3GoalDisplay::Verbose.is_verbose());
    assert!(!Z3GoalDisplay::Disabled.is_verbose());
    assert_eq!(IcxSliceDisplay::from_presence(true), IcxSliceDisplay::Verbose);
    assert_eq!(IcxSliceDisplay::from_presence(false), IcxSliceDisplay::Disabled);
    assert!(IcxSliceDisplay::Verbose.is_verbose());
    assert!(!IcxSliceDisplay::Disabled.is_verbose());
}
