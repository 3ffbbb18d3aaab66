//! A dataflow engine for ownership analysis over control-flow graphs.
//!
//! For each function of a program the engine settles an order in which the
//! basic blocks are visited, walks the blocks in that order, and keeps for
//! every block and every local five kinds of fact: the origins that may have
//! tainted the local, the identity of its binding, the length of the
//! collection it holds, its symbolic type, and the ownership layout of that
//! type. Calls are followed into their callees; a set of entered functions
//! keeps recursion from running on. What is known at the returning blocks
//! is put to a constraint solver, and what cannot hold is reported.
use vstd::prelude::*;

pub mod body;
pub mod context;
pub mod display;
pub mod graph;
pub mod inter_visitor;
pub mod intro_visitor;
pub mod merge;
pub mod order;
pub mod ownership;
pub mod solver;
pub mod whole_function;

use crate::body::Body;
use crate::context::{IcxSliceFroBlock, IntroFlowContext, SliceView};
use crate::graph::{FnId, Graph, MirGraph};
use crate::inter_visitor::{analyze_spec, blank_store, StoreState};
use crate::order::{fits, graph_of, lemma_graph_of_fits, targets_in_range, NodeOrder};
use crate::ownership::AdtOwner;
use crate::solver::{check_function, explained, Diagnostic};
use std::collections::HashMap;
use std::collections::HashSet;

pub use crate::context::{IOPairForGraph, InOutPair};
pub use crate::display::{IcxSliceDisplay, Z3GoalDisplay};

verus! {

broadcast use vstd::std_specs::hash::group_hash_axioms;

/// The functions that an analysis has entered.
pub type Unique = HashSet<FnId>;

/// What a run of the analysis works on: the bodies of the program's
/// functions, each under its number, their control-flow graphs, and the
/// catalog of layouts.
#[derive(Debug)]
pub struct RlcGlobalCtxt {
    pub bodies: Vec<Body>,
    pub mir_graph: MirGraph,
    pub adt_owner: AdtOwner,
}

impl RlcGlobalCtxt {
    /// Function `f` can be walked: its body names only what exists, and it
    /// has a graph that fits the body.
    pub open spec fn walkable(self, f: FnId) -> bool {
        &&& f < self.bodies@.len()
        &&& self.bodies@[f as int].wf()
        &&& self.mir_graph@.contains_key(f)
        &&& fits(self.bodies@[f as int], self.mir_graph@[f])
    }

    /// Function `f` has its control-flow graph, with a traversal order.
    pub open spec fn graphed(self, f: FnId) -> bool {
        &&& f < self.bodies@.len()
        &&& self.mir_graph@.contains_key(f)
        &&& graph_of(self.bodies@[f as int], self.mir_graph@[f])
    }

    /// Under the number `f` this context has the graph that `other` has,
    /// or none where `other` has none.
    pub open spec fn same_graph(self, other: RlcGlobalCtxt, f: FnId) -> bool {
        &&& self.mir_graph@.contains_key(f) <==> other.mir_graph@.contains_key(f)
        &&& self.mir_graph@.contains_key(f) ==> self.mir_graph@[f] == other.mir_graph@[f]
    }

    /// Every function of the program that has a graph can be walked.
    pub open spec fn ready(self) -> bool {
        forall|f: FnId|
            f < self.bodies@.len() && self.mir_graph@.contains_key(f) ==> #[trigger] self.walkable(
                f,
            )
    }

    /// Whether every function of the program that has a graph can be
    /// walked.
    pub fn check_ready(&self) -> (r: bool)
        ensures
            r == self.ready(),
    {
        let n = self.bodies.len();
        let mut f: usize = 0;
        while f < n
            invariant
                n == self.bodies@.len(),
                f <= n,
                forall|h: FnId|
                    h < f && self.mir_graph@.contains_key(h) ==> #[trigger] self.walkable(h),
            decreases n - f,
        {
            match self.mir_graph.get(&f) {
                Some(g) => {
                    if !(self.bodies[f].check() && g.check_fits(&self.bodies[f])) {
                        assert(!self.walkable(f));
                        return false;
                    }
                },
                None => {},
            }
            f += 1;
        }
        true
    }

    /// A context for the given bodies and catalog, without graphs yet.
    pub fn new(bodies: Vec<Body>, adt_owner: AdtOwner) -> (r: Self)
        ensures
            r.bodies == bodies,
            r.adt_owner == adt_owner,
            r.mir_graph@ == Map::<FnId, Graph>::empty(),
    {
        RlcGlobalCtxt { bodies, mir_graph: HashMap::new(), adt_owner }
    }

    pub fn bodies(&self) -> (r: &Vec<Body>)
        ensures
            *r == self.bodies,
    {
        &self.bodies
    }

    pub fn mir_graph(&self) -> (r: &MirGraph)
        ensures
            *r == self.mir_graph,
    {
        &self.mir_graph
    }

    pub fn mir_graph_mut(&mut self) -> (r: &mut MirGraph)
        ensures
            *r == old(self).mir_graph,
            final(self).mir_graph == *final(r),
            final(self).bodies == old(self).bodies,
            final(self).adt_owner == old(self).adt_owner,
    {
        &mut self.mir_graph
    }

    pub fn adt_owner(&self) -> (r: &AdtOwner)
        ensures
            *r == self.adt_owner,
    {
        &self.adt_owner
    }
}

/// The analysis of a whole program.
#[derive(Debug)]
pub struct FlowAnalysis {
    pub rcx: RlcGlobalCtxt,
    pub fn_set: Unique,
}

impl FlowAnalysis {
    pub fn new(rcx: RlcGlobalCtxt) -> (r: Self)
        ensures
            r.rcx == rcx,
            r.fn_set@ == Set::<FnId>::empty(),
    {
        Self { rcx, fn_set: HashSet::new() }
    }

    pub fn rcx(&self) -> (r: &RlcGlobalCtxt)
        ensures
            *r == self.rcx,
    {
        &self.rcx
    }

    pub fn rcx_mut(&mut self) -> (r: &mut RlcGlobalCtxt)
        ensures
            *r == old(self).rcx,
            final(self).rcx == *final(r),
            final(self).fn_set == old(self).fn_set,
    {
        &mut self.rcx
    }

    pub fn fn_set(&self) -> (r: &Unique)
        ensures
            *r == self.fn_set,
    {
        &self.fn_set
    }

    pub fn fn_set_mut(&mut self) -> (r: &mut Unique)
        ensures
            *r == old(self).fn_set,
            final(self).fn_set == *final(r),
            final(self).rcx == old(self).rcx,
    {
        &mut self.fn_set
    }

    pub fn mir_graph(&self) -> (r: &MirGraph)
        ensures
            *r == self.rcx.mir_graph,
    {
        self.rcx().mir_graph()
    }

    pub fn mir_graph_mut(&mut self) -> (r: &mut MirGraph)
        ensures
            *r == old(self).rcx.mir_graph,
            final(self).rcx.mir_graph == *final(r),
            final(self).rcx.bodies == old(self).rcx.bodies,
            final(self).rcx.adt_owner == old(self).rcx.adt_owner,
            final(self).fn_set == old(self).fn_set,
    {
        self.rcx_mut().mir_graph_mut()
    }

    /// Builds the control-flow graph of every function, with its traversal
    /// order.
    pub fn order(&mut self)
        requires
            forall|f: int|
                0 <= f < old(self).rcx.bodies@.len() ==> targets_in_range(
                    #[trigger] old(self).rcx.bodies@[f],
                ),
        ensures
            final(self).rcx.bodies == old(self).rcx.bodies,
            final(self).rcx.adt_owner == old(self).rcx.adt_owner,
            final(self).fn_set == old(self).fn_set,
            forall|f: FnId| f < old(self).rcx.bodies@.len() ==> #[trigger] final(self).rcx.graphed(f),
            forall|f: FnId|
                f >= old(self).rcx.bodies@.len() ==> #[trigger] final(self).rcx.same_graph(
                    old(self).rcx,
                    f,
                ),
    {
        let n = self.rcx.bodies.len();
        let mut f: usize = 0;
        while f < n
            invariant
                n == self.rcx.bodies@.len(),
                f <= n,
                self.rcx.bodies == old(self).rcx.bodies,
                self.rcx.adt_owner == old(self).rcx.adt_owner,
                self.fn_set == old(self).fn_set,
                forall|h: int| 0 <= h < n ==> targets_in_range(#[trigger] self.rcx.bodies@[h]),
                forall|h: FnId| h < f ==> #[trigger] self.rcx.graphed(h),
                forall|h: FnId| h >= f ==> #[trigger] self.rcx.same_graph(old(self).rcx, h),
            decreases n - f,
        {
            let ghost before = self.rcx;
            let graph = NodeOrder::build(&self.rcx.bodies[f]);
            self.rcx.mir_graph.insert(f, graph);
            proof {
                assert forall|h: FnId| h < f + 1 implies #[trigger] self.rcx.graphed(h) by {
                    if h < f {
                        assert(before.graphed(h));
                    }
                }
                assert forall|h: FnId| h >= f + 1 implies #[trigger] self.rcx.same_graph(
                    old(self).rcx,
                    h,
                ) by {
                    assert(before.same_graph(old(self).rcx, h));
                }
            }
            f += 1;
        }
    }
}

/// What the analysis found out about one function: its store, filled.
#[derive(Debug)]
pub struct FunctionFacts {
    pub function: FnId,
    pub icx: IntroFlowContext,
}

/// What is reported of one function: its findings; none means that no
/// violation was found.
#[derive(Debug)]
pub struct FunctionReport {
    pub function: FnId,
    pub diagnostics: Vec<Diagnostic>,
}

/// The functions and stores of a list of facts.
pub open spec fn facts_view(facts: Seq<FunctionFacts>) -> Seq<(FnId, StoreState)> {
    Seq::new(facts.len(), |i: int| (facts[i].function, facts[i].icx.store_view()))
}

/// The stores of the functions among the first `upto` that are analysed in
/// their own right, and the functions entered by then. A function is
/// analysed in its own right if it has a graph and no analysis before it
/// entered it; it is entered before its blocks are walked.
pub open spec fn intro_spec(rcx: RlcGlobalCtxt, upto: int, visited: Set<FnId>) -> (
    Seq<(FnId, StoreState)>,
    Set<FnId>,
)
    decreases upto,
{
    if upto <= 0 {
        (Seq::empty(), visited)
    } else {
        let before = intro_spec(rcx, upto - 1, visited);
        let f = (upto - 1) as usize;
        if rcx.mir_graph@.contains_key(f) && !before.1.contains(f) {
            let done = analyze_spec(rcx, f, before.1.insert(f), rcx.bodies@.len());
            (before.0.push((f, done.0)), done.1)
        } else {
            before
        }
    }
}

/// Each store that `intro_spec` gathers is the store that the analysis of
/// its function gives, for the functions entered when that analysis began:
/// what holds of every analysis of a function holds of each of them.
pub proof fn lemma_intro_stores(rcx: RlcGlobalCtxt, upto: int, visited: Set<FnId>, i: int)
    requires
        0 <= i < intro_spec(rcx, upto, visited).0.len(),
    ensures
        0 <= intro_spec(rcx, upto, visited).0[i].0 < upto,
        rcx.mir_graph@.contains_key(intro_spec(rcx, upto, visited).0[i].0),
        exists|entered: Set<FnId>|
            (#[trigger] analyze_spec(
                rcx,
                intro_spec(rcx, upto, visited).0[i].0,
                entered,
                rcx.bodies@.len(),
            )).0 == intro_spec(rcx, upto, visited).0[i].1,
    decreases upto,
{
    if upto > 0 {
        let before = intro_spec(rcx, upto - 1, visited);
        let f = (upto - 1) as usize;
        if i < before.0.len() {
            lemma_intro_stores(rcx, upto - 1, visited, i);
            assert(intro_spec(rcx, upto, visited).0[i] == before.0[i]);
        } else {
            let entered = before.1.insert(f);
            let done = analyze_spec(rcx, f, entered, rcx.bodies@.len());
            assert(intro_spec(rcx, upto, visited).0[i] == (f, done.0));
        }
    }
}

/// How many of the reports hold a finding.
pub open spec fn hazards(reports: Seq<FunctionReport>, upto: int) -> nat
    decreases upto,
{
    if upto <= 0 {
        0
    } else {
        hazards(reports, upto - 1) + if reports[upto - 1].diagnostics@.len() > 0 {
            1nat
        } else {
            0nat
        }
    }
}

/// The number of functions for which something is reported; 0 is the
/// clean verdict.
pub fn hazard_count(reports: &Vec<FunctionReport>) -> (r: usize)
    ensures
        r == hazards(reports@, reports@.len() as int),
{
    let mut count: usize = 0;
    let mut k: usize = 0;
    while k < reports.len()
        invariant
            k <= reports@.len(),
            count <= k,
            count == hazards(reports@, k as int),
        decreases reports@.len() - k,
    {
        if reports[k].diagnostics.len() > 0 {
            count += 1;
        }
        k += 1;
    }
    count
}

impl FlowAnalysis {
    /// The facts in `facts` are those of functions that can be walked, each
    /// in a store of the function's shape.
    pub open spec fn holds(self, facts: Seq<FunctionFacts>) -> bool {
        forall|i: int|
            0 <= i < facts.len() ==> self.rcx.walkable((#[trigger] facts[i]).function)
                && facts[i].icx.wf(
                self.rcx.bodies@[facts[i].function as int].basic_blocks@.len(),
                self.rcx.bodies@[facts[i].function as int].local_decls as nat,
            )
    }

    /// `reports` are the findings for `facts`, function for function, under
    /// some answers that the solver may give about the exit facts.
    pub open spec fn reported(self, facts: Seq<(FnId, StoreState)>, reports: Seq<FunctionReport>) -> bool {
        &&& reports.len() == facts.len()
        &&& forall|i: int|
            0 <= i < reports.len() ==> (#[trigger] reports[i]).function == facts[i].0 && explained(
                self.rcx.bodies@[facts[i].0 as int],
                self.rcx.mir_graph@[facts[i].0].topo@,
                facts[i].0,
                facts[i].1.exit,
                reports[i].diagnostics@,
            )
    }

    /// Analyses every function that has a graph and was not entered by the
    /// analysis of one before it.
    pub fn intro(&mut self) -> (r: Vec<FunctionFacts>)
        requires
            old(self).rcx.ready(),
        ensures
            final(self).rcx == old(self).rcx,
            (facts_view(r@), final(self).fn_set@) == intro_spec(
                old(self).rcx,
                old(self).rcx.bodies@.len() as int,
                old(self).fn_set@,
            ),
            final(self).holds(r@),
    {
        let n = self.rcx.bodies.len();
        let ghost visited0 = self.fn_set@;
        let mut found: Vec<FunctionFacts> = Vec::new();
        assert(facts_view(found@) =~= Seq::empty());
        let mut f: usize = 0;
        while f < n
            invariant
                self.rcx == old(self).rcx,
                self.rcx.ready(),
                n == self.rcx.bodies@.len(),
                f <= n,
                (facts_view(found@), self.fn_set@) == intro_spec(self.rcx, f as int, visited0),
                self.holds(found@),
            decreases n - f,
        {
            if self.rcx.mir_graph.contains_key(&f) && !self.fn_set.contains(&f) {
                let ghost before = facts_view(found@);
                let mut unique: Unique = HashSet::new();
                std::mem::swap(&mut self.fn_set, &mut unique);
                unique.insert(f);
                let mut analysis = IntroFlowAnalysis::new(&self.rcx, f, unique);
                analysis.visit();
                let IntroFlowAnalysis { icx, ref_fn_unique, .. } = analysis;
                self.fn_set = ref_fn_unique;
                found.push(FunctionFacts { function: f, icx });
                assert(facts_view(found@) =~= before.push((f, icx.store_view())));
            }
            f += 1;
        }
        found
    }

    /// Asks the solver about the facts of each function in `facts`.
    pub fn solve(&self, facts: Vec<FunctionFacts>) -> (r: Vec<FunctionReport>)
        requires
            self.rcx.ready(),
            self.holds(facts@),
        ensures
            self.reported(facts_view(facts@), r@),
    {
        let mut facts = facts;
        let ghost all = facts@;
        let mut reports: Vec<FunctionReport> = Vec::new();
        let mut k: usize = 0;
        while k < facts.len()
            invariant
                self.rcx.ready(),
                facts@.len() == all.len(),
                forall|i: int|
                    0 <= i < all.len() ==> (#[trigger] facts@[i]).function == all[i].function
                        && facts@[i].icx == all[i].icx,
                self.holds(all),
                k <= all.len(),
                reports@.len() == k,
                forall|i: int|
                    0 <= i < k ==> (#[trigger] reports@[i]).function == all[i].function && explained(
                        self.rcx.bodies@[all[i].function as int],
                        self.rcx.mir_graph@[all[i].function].topo@,
                        all[i].function,
                        all[i].icx.exits(),
                        reports@[i].diagnostics@,
                    ),
            decreases all.len() - k,
        {
            let f = facts[k].function;
            assert(self.rcx.walkable(all[k as int].function));
            let body = &self.rcx.bodies[f];
            let graph = self.rcx.mir_graph.get(&f).unwrap();
            let diagnostics = check_function(&mut facts[k].icx, body, graph, f);
            reports.push(FunctionReport { function: f, diagnostics });
            k += 1;
        }
        reports
    }

    /// Runs the whole analysis: settles the order in which the blocks of
    /// each function are visited, walks every function, and asks the solver
    /// about what was found.
    pub fn start(&mut self) -> (r: Vec<FunctionReport>)
        requires
            forall|f: int|
                0 <= f < old(self).rcx.bodies@.len() ==> (#[trigger] old(self).rcx.bodies@[f]).wf(),
        ensures
            final(self).rcx.bodies == old(self).rcx.bodies,
            final(self).rcx.adt_owner == old(self).rcx.adt_owner,
            forall|f: FnId| f < old(self).rcx.bodies@.len() ==> #[trigger] final(self).rcx.graphed(f),
            forall|f: FnId|
                f >= old(self).rcx.bodies@.len() ==> #[trigger] final(self).rcx.same_graph(
                    old(self).rcx,
                    f,
                ),
            final(self).fn_set@ == intro_spec(
                final(self).rcx,
                old(self).rcx.bodies@.len() as int,
                old(self).fn_set@,
            ).1,
            final(self).reported(
                intro_spec(
                    final(self).rcx,
                    old(self).rcx.bodies@.len() as int,
                    old(self).fn_set@,
                ).0,
                r@,
            ),
    {
        // this phase determines the order in which the blocks of each
        // function are visited; cleanup blocks are not visited
        self.order();
        proof {
            assert forall|f: FnId|
                f < self.rcx.bodies@.len() && self.rcx.mir_graph@.contains_key(
                    f,
                ) implies #[trigger] self.rcx.walkable(f) by {
                assert(self.rcx.graphed(f));
                lemma_graph_of_fits(self.rcx.bodies@[f as int], self.rcx.mir_graph@[f]);
            }
        }
        // this phase walks the blocks of each function; calls are followed
        // into their callees from inside it
        let facts = self.intro();
        self.solve(facts)
    }
}

/// The analysis of one function: its store, the working slice of the block
/// at hand, and the functions entered so far.
#[derive(Debug)]
pub struct IntroFlowAnalysis<'a> {
    pub rcx: &'a RlcGlobalCtxt,
    pub icx: IntroFlowContext,
    pub icx_slice: IcxSliceFroBlock,
    pub did: FnId,
    pub body: &'a Body,
    pub graph: &'a Graph,
    pub ref_fn_unique: Unique,
}

impl<'a> IntroFlowAnalysis<'a> {
    /// What `new` sets up for function `did`.
    pub open spec fn bound_to(self, rcx: &RlcGlobalCtxt, did: FnId) -> bool {
        &&& self.rcx == rcx
        &&& self.did == did
        &&& *self.body == rcx.bodies@[did as int]
        &&& *self.graph == rcx.mir_graph@[did]
    }

    pub fn new(rcx: &'a RlcGlobalCtxt, did: FnId, unique: Unique) -> (r: Self)
        requires
            did < rcx.bodies@.len(),
            rcx.mir_graph@.contains_key(did),
        ensures
            r.bound_to(rcx, did),
            r.ref_fn_unique == unique,
            r.icx_slice@ == SliceView::blank(rcx.bodies@[did as int].local_decls as nat),
            r.icx.store_view() == blank_store(
                rcx.bodies@[did as int].basic_blocks@.len(),
                rcx.bodies@[did as int].local_decls as nat,
            ),
            r.icx.wf(
                rcx.bodies@[did as int].basic_blocks@.len(),
                rcx.bodies@[did as int].local_decls as nat,
            ),
    {
        let body = &rcx.bodies[did];
        let v_len = body.local_decls;
        let b_len = body.basic_blocks.len();
        let found = rcx.mir_graph.get(&did);
        let graph = found.unwrap();
        let icx = IntroFlowContext::new(b_len, v_len);
        proof {
            let blank = blank_store(b_len as nat, v_len as nat);
            assert(icx.store_view().entry =~= blank.entry);
            assert(icx.store_view().exit =~= blank.exit);
        }

        Self {
            rcx,
            icx,
            icx_slice: IcxSliceFroBlock::new_for_block_0(v_len),
            did,
            body,
            graph,
            ref_fn_unique: unique,
        }
    }

    pub fn rcx(&self) -> (r: &RlcGlobalCtxt)
        ensures
            r == self.rcx,
    {
        self.rcx
    }

    pub fn icx(&self) -> (r: &IntroFlowContext)
        ensures
            *r == self.icx,
    {
        &self.icx
    }

    pub fn icx_mut(&mut self) -> (r: &mut IntroFlowContext)
        ensures
            *r == old(self).icx,
            final(self).icx == *final(r),
            final(self).icx_slice == old(self).icx_slice,
            final(self).ref_fn_unique == old(self).ref_fn_unique,
            final(self).rcx == old(self).rcx,
            final(self).did == old(self).did,
            final(self).body == old(self).body,
            final(self).graph == old(self).graph,
    {
        &mut self.icx
    }

    pub fn icx_slice(&self) -> (r: &IcxSliceFroBlock)
        ensures
            *r == self.icx_slice,
    {
        &self.icx_slice
    }

    pub fn icx_slice_mut(&mut self) -> (r: &mut IcxSliceFroBlock)
        ensures
            *r == old(self).icx_slice,
            final(self).icx_slice == *final(r),
            final(self).icx == old(self).icx,
            final(self).ref_fn_unique == old(self).ref_fn_unique,
            final(self).rcx == old(self).rcx,
            final(self).did == old(self).did,
            final(self).body == old(self).body,
            final(self).graph == old(self).graph,
    {
        &mut self.icx_slice
    }

    pub fn did(&self) -> (r: FnId)
        ensures
            r == self.did,
    {
        self.did
    }

    pub fn body(&self) -> (r: &'a Body)
        ensures
            r == self.body,
    {
        self.body
    }

    pub fn unique(&self) -> (r: &Unique)
        ensures
            *r == self.ref_fn_unique,
    {
        &self.ref_fn_unique
    }

    pub fn unique_mut(&mut self) -> (r: &mut Unique)
        ensures
            *r == old(self).ref_fn_unique,
            final(self).ref_fn_unique == *final(r),
            final(self).icx == old(self).icx,
            final(self).icx_slice == old(self).icx_slice,
            final(self).rcx == old(self).rcx,
            final(self).did == old(self).did,
            final(self).body == old(self).body,
            final(self).graph == old(self).graph,
    {
        &mut self.ref_fn_unique
    }

    pub fn owner(&self) -> (r: &AdtOwner)
        ensures
            *r == self.rcx.adt_owner,
    {
        self.rcx().adt_owner()
    }

    pub fn graph(&self) -> (r: &Graph)
        ensures
            r == self.graph,
    {
        self.graph
    }
}

} // verus!
