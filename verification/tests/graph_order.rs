use flow_analysis::body::{BasicBlock, Body, Statement, Terminator};
use flow_analysis::graph::{copy_edges, empty_edges, Graph};
use flow_analysis::order::{body_edges, check_in_range, no_repeats, reverse_postorder, NodeOrder};
use flow_analysis::ownership::AdtOwner;
use flow_analysis::{FlowAnalysis, RlcGlobalCtxt};

fn block(targets: Vec<usize>, is_cleanup: bool) -> BasicBlock {
    BasicBlock { statements: vec![Statement::Nop], terminator: Terminator::Goto { targets }, is_cleanup }
}

fn ret() -> BasicBlock {
    BasicBlock { statements: Vec::new(), terminator: Terminator::Return, is_cleanup: false }
}

fn position(order: &Vec<usize>, b: usize) -> usize {
    order.iter().position(|x| *x == b).unwrap()
}

#[test]
fn new_graph_has_no_edges_and_no_order() {
    let g = Graph::new(3);
    assert_eq!(g.get_edges(), &vec![Vec::<usize>::new(); 3]);
    assert_eq!(g.get_pre(), &vec![Vec::<usize>::new(); 3]);
    assert!(g.get_topo().is_empty());
}

#[test]
fn default_graph_is_empty() {
    let g = Graph::default();
    assert!(g.get_edges().is_empty());
    assert!(g.get_pre().is_empty());
    assert!(g.get_topo().is_empty());
}

#[test]
fn graph_mut_getters_reach_the_fields() {
    let mut g = Graph::new(2);
    g.get_edges_mut()[0].push(1);
    g.get_pre_mut()[1].push(0);
    g.get_topo_mut().push(0);
    g.get_topo_mut().push(1);
    assert_eq!(g.get_edges(), &vec![vec![1], vec![]]);
    assert_eq!(g.get_pre(), &vec![vec![], vec![0]]);
    assert_eq!(g.get_topo(), &vec![0, 1]);
}

#[test]
fn graph_clone_copies_all_three_parts() {
    let mut g = Graph::new(2);
    g.get_edges_mut()[0].push(1);
    g.get_pre_mut()[1].push(0);
    g.get_topo_mut().push(0);
    let c = g.clone();
    assert_eq!(c.e, g.e);
    assert_eq!(c.pre, g.pre);
    assert_eq!(c.topo, g.topo);
}

#[test]
fn edge_helpers_copy_and_size() {
    assert_eq!(empty_edges(0), Vec::<Vec<usize>>::new());
    let e = vec![vec![1, 2], vec![], vec![0]];
    assert_eq!(copy_edges(&e), e);
}

#[test]
fn edges_of_a_diamond() {
    let body = Body {
        local_decls: 1,
        basic_blocks: vec![block(vec![1, 2], false), block(vec![3], false), block(vec![3], false), ret()],
    };
    let (e, pre) = body_edges(&body);
    assert_eq!(e, vec![vec![1, 2], vec![3], vec![3], vec![]]);
    assert_eq!(pre, vec![vec![], vec![0], vec![0], vec![1, 2]]);
}

#[test]
fn edges_into_cleanup_blocks_are_left_out() {
    let body = Body {
        local_decls: 1,
        basic_blocks: vec![block(vec![1, 2], false), ret(), block(vec![1], true)],
    };
    let mut order = NodeOrder::new(&body);
    assert_eq!(order.graph().get_edges().len(), 3);
    order.collect_edges();
    assert_eq!(order.graph().get_edges(), &vec![vec![1], vec![], vec![1]]);
    assert_eq!(order.graph().get_pre(), &vec![vec![], vec![0, 2], vec![]]);
    order.topo_order();
    assert_eq!(order.graph().get_topo(), &vec![0, 1]);
}

#[test]
fn order_of_a_diamond_puts_each_block_after_its_predecessors() {
    let body = Body {
        local_decls: 1,
        basic_blocks: vec![block(vec![1, 2], false), block(vec![3], false), block(vec![3], false), ret()],
    };
    let g = NodeOrder::build(&body);
    let topo = g.get_topo();
    assert_eq!(topo.len(), 4);
    assert_eq!(topo[0], 0);
    assert_eq!(topo[3], 3);
    for u in 0..4usize {
        for v in g.get_edges()[u].iter() {
            assert!(position(topo, u) < position(topo, *v));
        }
    }
    assert_eq!(topo, &vec![0, 2, 1, 3]);
}

#[test]
fn order_with_a_loop_keeps_forward_edges_forward() {
    // 0 -> 1 -> 2 -> 1 (back edge), 2 -> 3
    let body = Body {
        local_decls: 1,
        basic_blocks: vec![block(vec![1], false), block(vec![2], false), block(vec![1, 3], false), ret()],
    };
    let g = NodeOrder::build(&body);
    assert_eq!(g.get_topo(), &vec![0, 1, 2, 3]);
}

#[test]
fn order_leaves_out_what_the_entry_does_not_reach() {
    let body = Body {
        local_decls: 1,
        basic_blocks: vec![block(vec![2], false), block(vec![2], false), ret()],
    };
    let g = NodeOrder::build(&body);
    assert_eq!(g.get_topo(), &vec![0, 2]);
    assert_eq!(g.get_pre()[2], vec![0, 1]);
}

#[test]
fn order_of_an_empty_body_is_empty() {
    let body = Body { local_decls: 0, basic_blocks: Vec::new() };
    let g = NodeOrder::build(&body);
    assert!(g.get_topo().is_empty());
    assert!(g.get_edges().is_empty());
    assert!(g.get_pre().is_empty());
}

#[test]
fn order_with_a_cleanup_entry_is_empty() {
    let body = Body { local_decls: 0, basic_blocks: vec![block(vec![1], true), ret()] };
    let g = NodeOrder::build(&body);
    assert!(g.get_topo().is_empty());
    assert_eq!(g.get_edges(), &vec![vec![1], vec![]]);
}

#[test]
fn order_with_a_self_loop() {
    let body = Body { local_decls: 0, basic_blocks: vec![block(vec![0, 1], false), ret()] };
    let g = NodeOrder::build(&body);
    assert_eq!(g.get_topo(), &vec![0, 1]);
}

#[test]
fn reverse_postorder_on_plain_edges() {
    let e = vec![vec![1, 2], vec![3], vec![3], vec![], vec![0]];
    assert_eq!(reverse_postorder(&e), vec![0, 2, 1, 3]);
}

#[test]
fn node_order_getters() {
    let body = Body { local_decls: 2, basic_blocks: vec![ret()] };
    let mut order = NodeOrder::new(&body);
    assert_eq!(order.body().local_decls, 2);
    order.graph_mut().get_topo_mut().push(0);
    assert_eq!(order.graph().get_topo(), &vec![0]);
}

#[test]
fn body_check_accepts_and_refuses() {
    let good = Body {
        local_decls: 2,
        basic_blocks: vec![
            BasicBlock {
                statements: vec![Statement::Assign { target: 1, operands: vec![0], source: None }],
                terminator: Terminator::Call { callee: 9, args: vec![1], dest: 0, targets: vec![1] },
                is_cleanup: false,
            },
            ret(),
        ],
    };
    assert!(good.check());
    let bad_target = Body { local_decls: 1, basic_blocks: vec![block(vec![1], false)] };
    assert!(!bad_target.check());
    let bad_local = Body {
        local_decls: 1,
        basic_blocks: vec![BasicBlock {
            statements: vec![Statement::Construct { target: 1 }],
            terminator: Terminator::Return,
            is_cleanup: false,
        }],
    };
    assert!(!bad_local.check());
    let bad_arg = Body {
        local_decls: 1,
        basic_blocks: vec![BasicBlock {
            statements: Vec::new(),
            terminator: Terminator::Call { callee: 0, args: vec![3], dest: 0, targets: vec![] },
            is_cleanup: false,
        }],
    };
    assert!(!bad_arg.check());
}

#[test]
fn no_repeats_tells_repeats() {
    assert!(no_repeats(&vec![2, 0, 1], 3));
    assert!(!no_repeats(&vec![2, 0, 2], 3));
    assert!(no_repeats(&Vec::new(), 0));
    assert!(no_repeats(&vec![0], 5));
    assert!(!no_repeats(&vec![1, 1], 2));
}

#[test]
fn graphs_are_checked_against_their_bodies() {
    let body = Body { local_decls: 1, basic_blocks: vec![block(vec![1], false), ret()] };
    let built = NodeOrder::build(&body);
    assert!(built.check_fits(&body));
    let mut short = built.clone();
    short.pre.pop();
    assert!(!short.check_fits(&body));
    let mut twice = built.clone();
    twice.topo = vec![0, 0];
    assert!(!twice.check_fits(&body));
    let mut far = built.clone();
    far.topo = vec![0, 2];
    assert!(!far.check_fits(&body));
    let mut wild = built.clone();
    wild.pre[1] = vec![7];
    assert!(!wild.check_fits(&body));
    assert!(check_in_range(&vec![vec![1], vec![0, 1]]));
    assert!(!check_in_range(&vec![vec![2], vec![]]));
    assert!(check_in_range(&Vec::new()));
}

#[test]
fn context_readiness() {
    let body = Body { local_decls: 1, basic_blocks: vec![block(vec![1], false), ret()] };
    let bad = Body { local_decls: 0, basic_blocks: vec![block(vec![4], false)] };
    let mut rcx = RlcGlobalCtxt::new(vec![body, bad], AdtOwner::new(Vec::new()));
    assert!(rcx.check_ready());
    rcx.mir_graph_mut().insert(0, Graph::new(2));
    assert!(rcx.check_ready());
    rcx.mir_graph_mut().insert(0, Graph::new(3));
    assert!(!rcx.check_ready());
    rcx.mir_graph_mut().insert(0, Graph::new(2));
    rcx.mir_graph_mut().insert(1, Graph::new(1));
    assert!(!rcx.check_ready());
    rcx.mir_graph_mut().insert(7, Graph::new(9));
    rcx.mir_graph_mut().remove(&1);
    assert!(rcx.check_ready());
    let good = Body { local_decls: 1, basic_blocks: vec![block(vec![1], false), ret()] };
    let mut fa = FlowAnalysis::new(RlcGlobalCtxt::new(vec![good], AdtOwner::new(Vec::new())));
    fa.order();
    assert!(fa.rcx().check_ready());
}
