use flow_analysis::body::{LenChange, Statement};
use flow_analysis::context::IcxSliceFroBlock;
use flow_analysis::intro_visitor::{
    fresh_identity, gather_taint, resize, transfer_statement, transfer_statements,
};
use flow_analysis::ownership::{
    copy_layout, layout_has_unique, AdtOwner, IntroVar, OwnerTag, Taint, TyWithIndex, UNKNOWN_LEN,
};

fn labels(t: &Taint) -> Vec<u64> {
    let mut v: Vec<u64> = t.set().iter().cloned().collect();
    v.sort();
    v
}

fn no_catalog() -> AdtOwner {
    AdtOwner::new(Vec::new())
}

#[test]
fn taint_basics() {
    let mut t = Taint::default();
    assert!(t.is_untainted());
    assert!(!t.is_tainted());
    assert_eq!(t.count(), 0);
    t.insert(4);
    t.insert(4);
    t.insert(9);
    assert!(t.is_tainted());
    assert!(t.contains(4) && t.contains(9) && !t.contains(5));
    assert_eq!(t.count(), 2);
    let mut u = Taint::default();
    u.insert(1);
    u.absorb(&t);
    assert_eq!(labels(&u), vec![1, 4, 9]);
    assert_eq!(labels(&t), vec![4, 9]);
    let c = t.clone();
    assert_eq!(labels(&c), vec![4, 9]);
}

#[test]
fn defaults_of_the_fact_kinds() {
    assert_eq!(IntroVar::default(), IntroVar::Declared);
    assert_eq!(TyWithIndex::default(), TyWithIndex(None));
    assert!(TyWithIndex(None).is_unset());
    assert!(!TyWithIndex(Some(0)).is_unset());
    assert_eq!(UNKNOWN_LEN, usize::MAX);
}

#[test]
fn simple_taint_flow_reaches_the_return_local() {
    // local 1 is x, a taint source; local 2 is y = x; local 0 returns y
    let mut s = IcxSliceFroBlock::new_for_block_0(3);
    let stmts = vec![
        Statement::Assign { target: 1, operands: vec![], source: Some(42) },
        Statement::Assign { target: 2, operands: vec![1], source: None },
        Statement::Assign { target: 0, operands: vec![2], source: None },
    ];
    transfer_statements(&mut s, &stmts, &no_catalog());
    assert_eq!(labels(&s.taint()[1]), vec![42]);
    assert_eq!(labels(&s.taint()[2]), vec![42]);
    assert_eq!(labels(&s.taint()[0]), vec![42]);
}

#[test]
fn assignment_gathers_the_taint_of_all_operands_and_keeps_its_own() {
    let mut s = IcxSliceFroBlock::new_for_block_0(4);
    s.taint_mut()[0].insert(1);
    s.taint_mut()[1].insert(2);
    s.taint_mut()[2].insert(3);
    transfer_statement(&mut s, &Statement::Assign { target: 0, operands: vec![1, 2, 3], source: Some(9) }, &no_catalog());
    assert_eq!(labels(&s.taint()[0]), vec![1, 2, 3, 9]);
    assert_eq!(labels(&s.taint()[1]), vec![2]);
    transfer_statement(&mut s, &Statement::Assign { target: 3, operands: vec![3], source: None }, &no_catalog());
    assert!(s.taint()[3].is_untainted());
    assert_eq!(labels(&gather_taint(&s, &vec![1, 2, 1])), vec![2, 3]);
    assert!(gather_taint(&s, &Vec::new()).is_untainted());
}

#[test]
fn two_pushes_on_an_empty_collection_give_length_two() {
    let mut s = IcxSliceFroBlock::new_for_block_0(2);
    s.len_mut()[1] = 7;
    let stmts = vec![
        Statement::Construct { target: 1 },
        Statement::Resize { target: 1, change: LenChange::Grow(1) },
        Statement::Resize { target: 1, change: LenChange::Grow(1) },
    ];
    transfer_statements(&mut s, &stmts, &no_catalog());
    assert_eq!(s.len(), &vec![0, 2]);
}

#[test]
fn resize_by_what_can_be_told_and_unknown_otherwise() {
    assert_eq!(resize(3, LenChange::Grow(4)), 7);
    assert_eq!(resize(3, LenChange::Shrink(3)), 0);
    assert_eq!(resize(3, LenChange::Shrink(1)), 2);
    assert_eq!(resize(3, LenChange::Shrink(4)), UNKNOWN_LEN);
    assert_eq!(resize(3, LenChange::Unknown), UNKNOWN_LEN);
    assert_eq!(resize(UNKNOWN_LEN, LenChange::Grow(0)), UNKNOWN_LEN);
    assert_eq!(resize(UNKNOWN_LEN, LenChange::Shrink(1)), UNKNOWN_LEN);
    assert_eq!(resize(usize::MAX - 1, LenChange::Grow(1)), UNKNOWN_LEN);
    assert_eq!(resize(usize::MAX - 2, LenChange::Grow(1)), usize::MAX - 1);
    assert_eq!(resize(0, LenChange::Grow(0)), 0);
}

#[test]
fn a_length_that_is_unknown_stays_unknown() {
    let mut s = IcxSliceFroBlock::new_for_block_0(1);
    let stmts = vec![
        Statement::Resize { target: 0, change: LenChange::Unknown },
        Statement::Resize { target: 0, change: LenChange::Grow(1) },
    ];
    transfer_statements(&mut s, &stmts, &no_catalog());
    assert_eq!(s.len(), &vec![UNKNOWN_LEN]);
    transfer_statement(&mut s, &Statement::Construct { target: 0 }, &no_catalog());
    assert_eq!(s.len(), &vec![0]);
}

#[test]
fn introduced_bindings_get_identities_that_are_new() {
    let mut s = IcxSliceFroBlock::new_for_block_0(3);
    transfer_statement(&mut s, &Statement::Introduce { local: 1 }, &no_catalog());
    assert_eq!(s.var(), &vec![IntroVar::Declared, IntroVar::Init(0), IntroVar::Declared]);
    transfer_statement(&mut s, &Statement::Introduce { local: 0 }, &no_catalog());
    transfer_statement(&mut s, &Statement::Introduce { local: 1 }, &no_catalog());
    assert_eq!(s.var(), &vec![IntroVar::Init(1), IntroVar::Init(2), IntroVar::Declared]);
}

#[test]
fn fresh_identity_is_above_all_that_are_there() {
    assert_eq!(fresh_identity(&Vec::new()), IntroVar::Init(0));
    assert_eq!(fresh_identity(&vec![IntroVar::Declared, IntroVar::Unsupported]), IntroVar::Init(0));
    assert_eq!(fresh_identity(&vec![IntroVar::Init(7), IntroVar::Init(3)]), IntroVar::Init(8));
    assert_eq!(fresh_identity(&vec![IntroVar::Init(u64::MAX - 1)]), IntroVar::Init(u64::MAX));
    assert_eq!(fresh_identity(&vec![IntroVar::Init(u64::MAX), IntroVar::Init(1)]), IntroVar::Unsupported);
}

#[test]
fn rebinding_looks_the_layout_up() {
    let owner = AdtOwner::new(vec![vec![OwnerTag::Unique, OwnerTag::Shared], vec![OwnerTag::Borrowed]]);
    let mut s = IcxSliceFroBlock::new_for_block_0(2);
    transfer_statement(&mut s, &Statement::Rebind { target: 1, ty: TyWithIndex(Some(0)) }, &owner);
    assert_eq!(s.ty(), &vec![TyWithIndex(None), TyWithIndex(Some(0))]);
    assert_eq!(s.layout(), &vec![vec![], vec![OwnerTag::Unique, OwnerTag::Shared]]);
    transfer_statement(&mut s, &Statement::Rebind { target: 1, ty: TyWithIndex(Some(1)) }, &owner);
    assert_eq!(s.layout()[1], vec![OwnerTag::Borrowed]);
}

#[test]
fn a_type_the_catalog_lacks_has_the_unknown_layout() {
    let owner = AdtOwner::new(vec![vec![OwnerTag::Unique]]);
    assert_eq!(owner.layout_of(TyWithIndex(Some(0))), vec![OwnerTag::Unique]);
    assert_eq!(owner.layout_of(TyWithIndex(Some(1))), vec![OwnerTag::Irrelevant]);
    assert_eq!(owner.layout_of(TyWithIndex(None)), vec![OwnerTag::Irrelevant]);
    let mut s = IcxSliceFroBlock::new_for_block_0(1);
    transfer_statement(&mut s, &Statement::Rebind { target: 0, ty: TyWithIndex(Some(5)) }, &owner);
    assert_eq!(s.ty(), &vec![TyWithIndex(Some(5))]);
    assert_eq!(s.layout(), &vec![vec![OwnerTag::Irrelevant]]);
}

#[test]
fn nop_and_no_statements_change_nothing() {
    let mut s = IcxSliceFroBlock::new_for_block_0(1);
    s.len_mut()[0] = 3;
    transfer_statement(&mut s, &Statement::Nop, &no_catalog());
    transfer_statements(&mut s, &Vec::new(), &no_catalog());
    assert_eq!(s.len(), &vec![3]);
    assert!(s.taint()[0].is_untainted());
}

#[test]
fn layout_helpers() {
    assert!(layout_has_unique(&vec![OwnerTag::Shared, OwnerTag::Unique]));
    assert!(!layout_has_unique(&vec![OwnerTag::Shared, OwnerTag::Borrowed, OwnerTag::Irrelevant]));
    assert!(!layout_has_unique(&Vec::new()));
    assert_eq!(copy_layout(&vec![OwnerTag::Borrowed, OwnerTag::Unique]), vec![OwnerTag::Borrowed, OwnerTag::Unique]);
}
