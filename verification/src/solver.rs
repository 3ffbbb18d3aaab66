//! The questions put to the constraint solver, and what its answers mean.
use crate::body::{all_below, Body};
use crate::context::{IcxSliceFroBlock, IntroFlowContext, SliceView};
use crate::graph::{FnId, Graph};
use crate::ownership::{
    drawn, has_unique, layout_has_unique, lemma_drawn_all, lemma_drawn_step, Label, OwnerTag,
    OwnershipLayout, Taint,
};
use vstd::prelude::*;

verus! {

broadcast use vstd::std_specs::hash::group_hash_axioms;

/// `z3::Config`: the parameters a context is made with. Opaque here.
#[verifier::external_type_specification]
#[verifier::external_body]
pub struct ExConfig(z3::Config);

/// `z3::Context`: the logical context that terms and solvers live in.
/// Opaque here.
#[verifier::external_type_specification]
#[verifier::external_body]
pub struct ExContext(z3::Context);

/// `z3::Solver`: a set of assertions that can be checked. Opaque here.
#[verifier::external_type_specification]
#[verifier::external_body]
pub struct ExSolver<'ctx>(z3::Solver<'ctx>);

/// `z3::Sort`: the sort of a term. Opaque here.
#[verifier::external_type_specification]
#[verifier::external_body]
pub struct ExSort<'ctx>(z3::Sort<'ctx>);

/// `z3::ast::Set`: a term that stands for a set. Opaque here.
#[verifier::external_type_specification]
#[verifier::external_body]
pub struct ExSetAst<'ctx>(z3::ast::Set<'ctx>);

/// `z3::ast::Int`: a term that stands for an integer. Opaque here.
#[verifier::external_type_specification]
#[verifier::external_body]
pub struct ExIntAst<'ctx>(z3::ast::Int<'ctx>);

/// `z3::ast::Bool`: a formula. Opaque here.
#[verifier::external_type_specification]
#[verifier::external_body]
pub struct ExBoolAst<'ctx>(z3::ast::Bool<'ctx>);

/// What the solver says of a set of assertions.
#[derive(Clone, Copy, Debug, PartialEq, Eq, Structural)]
pub enum Verdict {
    /// They can all hold.
    Sat,
    /// They cannot all hold.
    Unsat,
    /// The solver could not tell.
    Unknown,
}

/// What a formula says. A set term is given by what it stands for: a set of
/// numbers that is written out, or nothing where the term is the constant
/// whose value the solver is to find.
pub enum Fact {
    /// The two set terms stand for the same set.
    Equal(Option<Set<int>>, Option<Set<int>>),
    /// The set term stands for a set that holds the number.
    Member(Option<Set<int>>, int),
}

/// The set that a set term stands for when the constant stands for
/// `unknown`.
pub open spec fn value_of(term: Option<Set<int>>, unknown: Set<int>) -> Set<int> {
    match term {
        None => unknown,
        Some(s) => s,
    }
}

/// Whether `fact` holds when the constant stands for `unknown`.
pub open spec fn holds(fact: Fact, unknown: Set<int>) -> bool {
    match fact {
        Fact::Equal(a, b) => value_of(a, unknown) == value_of(b, unknown),
        Fact::Member(a, x) => value_of(a, unknown).contains(x),
    }
}

/// Whether all of `facts` hold when the constant stands for `unknown`.
pub open spec fn all_hold(facts: Seq<Fact>, unknown: Set<int>) -> bool {
    forall|i: int| 0 <= i < facts.len() ==> holds(#[trigger] facts[i], unknown)
}

/// Whether the constant can stand for a set under which all of `facts`
/// hold.
pub open spec fn satisfiable(facts: Seq<Fact>) -> bool {
    exists|unknown: Set<int>| all_hold(facts, unknown)
}

/// What the set term `t` stands for (see `Fact`). It is told of the one
/// constant, of the empty set, and of a set that is written out with one
/// more number added; no other set term is made here.
pub uninterp spec fn set_term(t: z3::ast::Set) -> Option<Set<int>>;

/// The number that the integer term `t` stands for.
pub uninterp spec fn numeral(t: z3::ast::Int) -> int;

/// What the formula `t` says.
pub uninterp spec fn formula(t: z3::ast::Bool) -> Fact;

/// What the solver `s` was given to satisfy, in the order it was given.
pub uninterp spec fn asserted(s: z3::Solver) -> Seq<Fact>;

/// Whether `s` is the sort of the integers.
pub uninterp spec fn is_int_sort(s: z3::Sort) -> bool;

/// Whether the elements of the set term `t` are integers.
pub uninterp spec fn over_ints(t: z3::ast::Set) -> bool;

/// The context that the sort `s` was made in.
pub uninterp spec fn sort_ctx(s: z3::Sort) -> z3::Context;

/// The context that the set term `t` was made in.
pub uninterp spec fn set_ctx(t: z3::ast::Set) -> z3::Context;

/// The context that the integer term `t` was made in.
pub uninterp spec fn int_ctx(t: z3::ast::Int) -> z3::Context;

/// The context that the formula `t` was made in.
pub uninterp spec fn bool_ctx(t: z3::ast::Bool) -> z3::Context;

/// The context that the solver `s` was made in.
pub uninterp spec fn solver_ctx(s: z3::Solver) -> z3::Context;

/// `z3::Config::new`: a solver configuration with no parameter set.
/// Nothing is claimed of it.
#[verifier::external_body]
fn new_config() -> (r: z3::Config) {
    z3::Config::new()
}

/// `z3::Context::new`: a fresh logical context. Nothing is claimed of it.
#[verifier::external_body]
fn new_context(cfg: &z3::Config) -> (r: z3::Context) {
    z3::Context::new(cfg)
}

/// `z3::Solver::new`: a solver in `ctx`. The claim is that a new solver
/// belongs to `ctx` and was given nothing to satisfy yet.
#[verifier::external_body]
fn new_solver<'c>(ctx: &'c z3::Context) -> (r: z3::Solver<'c>)
    ensures
        solver_ctx(r) == *ctx,
        asserted(r) == Seq::<Fact>::empty(),
{
    z3::Solver::new(ctx)
}

/// `z3::Sort::int`: the sort of the integers in `ctx`. The claim is that it
/// is that sort, and belongs to `ctx`.
#[verifier::external_body]
fn int_sort<'c>(ctx: &'c z3::Context) -> (r: z3::Sort<'c>)
    ensures
        sort_ctx(r) == *ctx,
        is_int_sort(r),
{
    z3::Sort::int(ctx)
}

/// `z3::ast::Set::new_const`, under the one name that is used here: the
/// constant that stands for an unknown set of `eltype`. Z3 wants `eltype`
/// to be of `ctx`. The claim is that the term is that constant, belongs to
/// `ctx`, and has elements of `eltype`.
#[verifier::external_body]
fn set_const<'c>(ctx: &'c z3::Context, eltype: &z3::Sort<'c>) -> (r: z3::ast::Set<'c>)
    requires
        sort_ctx(*eltype) == *ctx,
    ensures
        set_ctx(r) == *ctx,
        over_ints(r) == is_int_sort(*eltype),
        set_term(r) == None::<Set<int>>,
{
    z3::ast::Set::new_const(ctx, "taint", eltype)
}

/// `z3::ast::Set::empty`: the term for the empty set of `eltype`. Z3 wants
/// `eltype` to be of `ctx`. The claim is that the term stands for the empty
/// set, belongs to `ctx`, and has elements of `eltype`.
#[verifier::external_body]
fn empty_set<'c>(ctx: &'c z3::Context, eltype: &z3::Sort<'c>) -> (r: z3::ast::Set<'c>)
    requires
        sort_ctx(*eltype) == *ctx,
    ensures
        set_ctx(r) == *ctx,
        over_ints(r) == is_int_sort(*eltype),
        set_term(r) == Some(Set::<int>::empty()),
{
    z3::ast::Set::empty(ctx, eltype)
}

/// `z3::ast::Int::from_u64`: the numeral for `label`. The claim is that the
/// term stands for that number and belongs to `ctx`.
#[verifier::external_body]
fn int_label<'c>(ctx: &'c z3::Context, label: Label) -> (r: z3::ast::Int<'c>)
    ensures
        int_ctx(r) == *ctx,
        numeral(r) == label as int,
{
    z3::ast::Int::from_u64(ctx, label)
}

/// `z3::ast::Set::add`: the term for `set` with `element` added. Z3 wants
/// the two to be of one context and `element` to be of the sort of the
/// set's elements. It is used on sets that are written out only. The claim
/// is that the term stands for that set with the number of `element`
/// added, and is again a set of integers of the same context.
#[verifier::external_body]
fn set_add<'c>(set: &z3::ast::Set<'c>, element: &z3::ast::Int<'c>) -> (r: z3::ast::Set<'c>)
    requires
        set_term(*set) is Some,
        over_ints(*set),
        set_ctx(*set) == int_ctx(*element),
    ensures
        set_ctx(r) == set_ctx(*set),
        over_ints(r),
        set_term(r) == Some(set_term(*set)->0.insert(numeral(*element))),
{
    set.add(element)
}

/// `z3::ast::Set::member`: the formula that says `element` is in `set`. Z3
/// wants the two to be of one context and `element` to be of the sort of
/// the set's elements. The claim is that the formula says so, and belongs
/// to the same context.
#[verifier::external_body]
fn set_member<'c>(set: &z3::ast::Set<'c>, element: &z3::ast::Int<'c>) -> (r: z3::ast::Bool<'c>)
    requires
        over_ints(*set),
        set_ctx(*set) == int_ctx(*element),
    ensures
        bool_ctx(r) == set_ctx(*set),
        formula(r) == Fact::Member(set_term(*set), numeral(*element)),
{
    set.member(element)
}

/// `z3::ast::Ast::_eq` on two set terms: the formula that says they are
/// equal. It panics where their sorts differ, and Z3 wants the two to be of
/// one context: both are sets of integers of one context here. The claim is
/// that the formula says that the two are equal, and belongs to the same
/// context.
#[verifier::external_body]
fn sets_equal<'c>(a: &z3::ast::Set<'c>, b: &z3::ast::Set<'c>) -> (r: z3::ast::Bool<'c>)
    requires
        over_ints(*a),
        over_ints(*b),
        set_ctx(*a) == set_ctx(*b),
    ensures
        bool_ctx(r) == set_ctx(*a),
        formula(r) == Fact::Equal(set_term(*a), set_term(*b)),
{
    z3::ast::Ast::_eq(a, b)
}

/// `z3::Solver::assert`: adds `fact` to what the solver is to satisfy. Z3
/// wants the two to be of one context. The claim is that the solver then
/// has what it had, and `fact` after it, and is of the same context.
#[verifier::external_body]
fn solver_assert<'c>(solver: &mut z3::Solver<'c>, fact: &z3::ast::Bool<'c>)
    requires
        solver_ctx(*old(solver)) == bool_ctx(*fact),
    ensures
        solver_ctx(*final(solver)) == solver_ctx(*old(solver)),
        asserted(*final(solver)) == asserted(*old(solver)).push(formula(*fact)),
{
    solver.assert(fact)
}

/// `z3::Solver::check`: asks whether what the solver was given can all
/// hold. The claim is what Z3 documents of the answer: "satisfiable" is
/// given only where it can, "unsatisfiable" only where it cannot. Nothing
/// is claimed of when the solver gives no answer.
#[verifier::external_body]
fn solver_check<'c>(solver: &z3::Solver<'c>) -> (r: Verdict)
    ensures
        r == Verdict::Sat ==> satisfiable(asserted(*solver)),
        r == Verdict::Unsat ==> !satisfiable(asserted(*solver)),
{
    match solver.check() {
        z3::SatResult::Sat => Verdict::Sat,
        z3::SatResult::Unsat => Verdict::Unsat,
        z3::SatResult::Unknown => Verdict::Unknown,
    }
}

/// The labels of `s` as numbers.
pub open spec fn label_ints(s: Set<Label>) -> Set<int> {
    Set::new(|i: int| 0 <= i <= u64::MAX && s.contains(i as u64))
}

/// What is handed to the solver for a local with the labels `labels`: that
/// the unknown set is the set of the labels and, where the local must be
/// clean, that it is empty.
pub open spec fn query_facts(labels: Set<Label>, must_be_clean: bool) -> Seq<Fact> {
    if must_be_clean {
        seq![
            Fact::Equal(None, Some(label_ints(labels))),
            Fact::Equal(None, Some(Set::<int>::empty())),
        ]
    } else {
        seq![Fact::Equal(None, Some(label_ints(labels)))]
    }
}

/// What is handed to the solver for a local can hold unless the local
/// must be clean and has a label.
pub proof fn lemma_query_satisfiable(labels: Set<Label>, must_be_clean: bool)
    ensures
        satisfiable(query_facts(labels, must_be_clean)) <==> (!must_be_clean || labels.is_empty()),
{
    let facts = query_facts(labels, must_be_clean);
    let lit = label_ints(labels);
    if !must_be_clean || labels.is_empty() {
        if labels.is_empty() {
            assert(lit =~= Set::<int>::empty());
        }
        assert(all_hold(facts, lit));
    }
    if satisfiable(facts) && must_be_clean {
        let u = choose|u: Set<int>| all_hold(facts, u);
        assert(holds(facts[0], u));
        assert(holds(facts[1], u));
        assert(lit == Set::<int>::empty());
        if !labels.is_empty() {
            let l = labels.choose();
            assert(lit.contains(l as int));
        }
    }
}

/// The question put to the solver about one local: can a set equal the set
/// of `labels` and, where `must_be_clean` holds, be empty as well?
#[derive(Debug)]
pub struct Query {
    pub labels: Taint,
    pub must_be_clean: bool,
}

impl Query {
    /// The question for a local that carries `taint` and has the shape
    /// `layout`: a layout with a uniquely owned field asks for no taint.
    pub fn new(taint: &Taint, layout: &OwnershipLayout) -> (r: Self)
        ensures
            r.labels@ == taint@,
            r.must_be_clean == has_unique(layout@),
    {
        Query { labels: taint.clone(), must_be_clean: layout_has_unique(layout) }
    }

    /// Whether what is claimed of the local can hold: a local that must be
    /// clean has no label.
    pub open spec fn consistent(self) -> bool {
        !self.must_be_clean || self.labels@.is_empty()
    }

    /// Hands the question to `solver`: adds `query_facts` to what it is to
    /// satisfy.
    fn pose<'c>(&self, ctx: &'c z3::Context, solver: &mut z3::Solver<'c>)
        requires
            solver_ctx(*old(solver)) == *ctx,
        ensures
            solver_ctx(*final(solver)) == *ctx,
            asserted(*final(solver)) == asserted(*old(solver)) + query_facts(
                self.labels@,
                self.must_be_clean,
            ),
    {
        broadcast use lemma_drawn_all;

        let sort = int_sort(ctx);
        let claimed = set_const(ctx, &sort);
        let mut held = empty_set(ctx, &sort);
        let labels = self.labels.set();
        for l in it: labels.iter()
            invariant
                it.seq().unref().to_set() == labels@,
                set_ctx(held) == *ctx,
                over_ints(held),
                set_term(held) is Some,
                set_term(held)->0 =~= label_ints(drawn(it.seq(), it.index())),
        {
            proof {
                lemma_drawn_step(it.seq(), it.index());
                assert(label_ints(drawn(it.seq(), it.index()).insert(*l)) =~= label_ints(
                    drawn(it.seq(), it.index()),
                ).insert(*l as int));
            }
            let x = int_label(ctx, *l);
            held = set_add(&held, &x);
        }
        assert(set_term(held) == Some(label_ints(self.labels@)));
        let is_held = sets_equal(&claimed, &held);
        solver_assert(solver, &is_held);
        if self.must_be_clean {
            let none = empty_set(ctx, &sort);
            let is_none = sets_equal(&claimed, &none);
            solver_assert(solver, &is_none);
        }
        assert(asserted(*solver) =~= asserted(*old(solver)) + query_facts(
            self.labels@,
            self.must_be_clean,
        ));
    }

    /// Puts the question to a fresh solver: hands it `query_facts` and asks
    /// whether they can hold. Where the solver answers, its answer is right:
    /// it says that they can hold only for a consistent query, and that
    /// they cannot only for an inconsistent one.
    pub fn solve(&self) -> (r: Verdict)
        ensures
            r == Verdict::Sat ==> self.consistent(),
            r == Verdict::Unsat ==> !self.consistent(),
    {
        let cfg = new_config();
        let ctx = new_context(&cfg);
        let mut solver = new_solver(&ctx);
        self.pose(&ctx, &mut solver);
        proof {
            assert(asserted(solver) =~= query_facts(self.labels@, self.must_be_clean));
            lemma_query_satisfiable(self.labels@, self.must_be_clean);
        }
        solver_check(&solver)
    }
}

/// What `solving_for_model` hands to the solver: that the unknown set is
/// the set that holds 1 and nothing else, and that it holds 1.
pub open spec fn model_facts() -> Seq<Fact> {
    seq![Fact::Equal(None, Some(set![1int])), Fact::Member(None, 1)]
}

/// Adds `model_facts` to what `solver` is to satisfy.
fn pose_model<'c>(ctx: &'c z3::Context, solver: &mut z3::Solver<'c>)
    requires
        solver_ctx(*old(solver)) == *ctx,
    ensures
        solver_ctx(*final(solver)) == *ctx,
        asserted(*final(solver)) == asserted(*old(solver)) + model_facts(),
{
    let sort = int_sort(ctx);
    let set = set_const(ctx, &sort);
    let one = int_label(ctx, 1);
    let just_one = set_add(&empty_set(ctx, &sort), &one);
    assert(set_term(just_one)->0 =~= set![1int]);
    let is_one = sets_equal(&set, &just_one);
    solver_assert(solver, &is_one);
    let has_one = set_member(&set, &one);
    solver_assert(solver, &has_one);
    assert(asserted(*solver) =~= asserted(*old(solver)) + model_facts());
}

/// Asks a fresh solver for a set of integers that equals the empty set with
/// 1 added and holds 1: hands it `model_facts` and asks whether they can
/// hold. There is such a set, so a solver that answers does not say that
/// there is none.
pub fn solving_for_model() -> (r: Verdict)
    ensures
        r != Verdict::Unsat,
{
    let cfg = new_config();
    let ctx = new_context(&cfg);
    let mut solver = new_solver(&ctx);
    pose_model(&ctx, &mut solver);
    proof {
        assert(asserted(solver) =~= model_facts());
        assert(all_hold(model_facts(), set![1int]));
    }
    solver_check(&solver)
}

/// Why a local is reported.
#[derive(Clone, Copy, Debug, PartialEq, Eq, Structural)]
pub enum Reason {
    /// What is claimed of the local cannot hold: it is tainted, and its
    /// layout asks for sole ownership.
    Hazard,
    /// The solver gave no answer.
    Undecided,
}

/// A finding: where, and why.
#[derive(Clone, Copy, Debug, PartialEq, Eq, Structural)]
pub struct Diagnostic {
    pub function: FnId,
    pub block: usize,
    pub local: usize,
    pub reason: Reason,
}

/// What a verdict on a local means: nothing to report where the claims can
/// hold, a finding otherwise.
pub open spec fn verdict_diag(v: Verdict, function: FnId, block: usize, local: usize) -> Option<
    Diagnostic,
> {
    match v {
        Verdict::Sat => None,
        Verdict::Unsat => Some(Diagnostic { function, block, local, reason: Reason::Hazard }),
        Verdict::Unknown => Some(Diagnostic { function, block, local, reason: Reason::Undecided }),
    }
}

/// Turns the solver's verdict on a local into a finding, or into none.
pub fn decide(v: Verdict, function: FnId, block: usize, local: usize) -> (r: Option<Diagnostic>)
    ensures
        r == verdict_diag(v, function, block, local),
{
    match v {
        Verdict::Sat => None,
        Verdict::Unsat => Some(Diagnostic { function, block, local, reason: Reason::Hazard }),
        Verdict::Unknown => Some(Diagnostic { function, block, local, reason: Reason::Undecided }),
    }
}

/// Whether `v` is an answer that the solver may give about a local with
/// the labels `taint` and the layout `layout`: it may say that the claims
/// can hold only where the local is clean or no field of the layout is
/// uniquely owned, and that they cannot only where neither is so.
pub open spec fn admissible(v: Verdict, taint: Set<Label>, layout: Seq<OwnerTag>) -> bool {
    &&& v == Verdict::Sat ==> (!has_unique(layout) || taint.is_empty())
    &&& v == Verdict::Unsat ==> (has_unique(layout) && !taint.is_empty())
}

/// Whether `vs` holds, for each local of `s`, an answer that the solver may
/// give about it.
pub open spec fn admissible_at(vs: Seq<Verdict>, s: SliceView) -> bool {
    &&& vs.len() == s.taint.len()
    &&& forall|l: int|
        0 <= l < vs.len() ==> admissible(#[trigger] vs[l], s.taint[l], s.layout[l])
}

/// The findings for the first `upto` locals of a block, given the verdict
/// `vs[l]` on each local `l`.
pub open spec fn local_diags(vs: Seq<Verdict>, function: FnId, block: usize, upto: int) -> Seq<
    Diagnostic,
>
    decreases upto,
{
    if upto <= 0 {
        Seq::empty()
    } else {
        let rest = local_diags(vs, function, block, upto - 1);
        match verdict_diag(vs[upto - 1], function, block, (upto - 1) as usize) {
            Some(d) => rest.push(d),
            None => rest,
        }
    }
}

/// The findings for the first `upto` blocks of a traversal order, given the
/// verdicts `vss[j]` on the locals of the block at position `j`: those for
/// the blocks that end in a return, in order.
pub open spec fn block_diags(
    vss: Seq<Seq<Verdict>>,
    body: Body,
    topo: Seq<usize>,
    function: FnId,
    upto: int,
) -> Seq<Diagnostic>
    decreases upto,
{
    if upto <= 0 {
        Seq::empty()
    } else {
        let rest = block_diags(vss, body, topo, function, upto - 1);
        let b = topo[upto - 1];
        if body.basic_blocks@[b as int].terminator is Return {
            rest + local_diags(vss[upto - 1], function, b, body.local_decls as int)
        } else {
            rest
        }
    }
}

/// Whether `vss` holds, for each returning block of the order, answers that
/// the solver may give about the locals of its exit facts.
pub open spec fn answers(vss: Seq<Seq<Verdict>>, body: Body, topo: Seq<usize>, exits: Seq<SliceView>) -> bool {
    &&& vss.len() == topo.len()
    &&& forall|j: int|
        0 <= j < topo.len() && body.basic_blocks@[topo[j] as int].terminator is Return ==> (
        #[trigger] vss[j]).len() == body.local_decls && admissible_at(
            vss[j],
            exits[topo[j] as int],
        )
}

/// `diags` is what checking a function with the exit facts `exits` reports
/// under some answers that the solver may give: one verdict for each local
/// at each returning block of the order.
pub open spec fn explained(
    body: Body,
    topo: Seq<usize>,
    function: FnId,
    exits: Seq<SliceView>,
    diags: Seq<Diagnostic>,
) -> bool {
    exists|vss: Seq<Seq<Verdict>>|
        answers(vss, body, topo, exits) && #[trigger] block_diags(
            vss,
            body,
            topo,
            function,
            topo.len() as int,
        ) == diags
}

/// Asks the solver about every local of one block's exit facts.
fn check_block(slice: &IcxSliceFroBlock, function: FnId, block: usize) -> (r: (
    Vec<Diagnostic>,
    Ghost<Seq<Verdict>>,
))
    requires
        slice.taint@.len() == slice.layout@.len(),
    ensures
        admissible_at(r.1@, slice@),
        r.0@ == local_diags(r.1@, function, block, slice.taint@.len() as int),
{
    let mut found: Vec<Diagnostic> = Vec::new();
    let ghost mut vs: Seq<Verdict> = Seq::empty();
    let n = slice.taint.len();
    let mut l: usize = 0;
    while l < n
        invariant
            n == slice.taint@.len(),
            n == slice.layout@.len(),
            l <= n,
            vs.len() == l,
            forall|k: int|
                0 <= k < l ==> admissible(#[trigger] vs[k], slice@.taint[k], slice@.layout[k]),
            found@ == local_diags(vs, function, block, l as int),
        decreases n - l,
    {
        let query = Query::new(&slice.taint[l], &slice.layout[l]);
        let v = query.solve();
        let ghost before = vs;
        proof {
            assert(slice@.taint[l as int] == slice.taint@[l as int]@);
            assert(slice@.layout[l as int] == slice.layout@[l as int]@);
            assert(admissible(v, slice@.taint[l as int], slice@.layout[l as int]));
            vs = vs.push(v);
            lemma_local_diags_prefix(before, vs, function, block, l as int);
        }
        match decide(v, function, block, l) {
            Some(d) => {
                found.push(d);
            },
            None => {},
        }
        l += 1;
    }
    assert(slice@.taint.len() == n);
    (found, Ghost(vs))
}

proof fn lemma_local_diags_prefix(
    a: Seq<Verdict>,
    b: Seq<Verdict>,
    function: FnId,
    block: usize,
    upto: int,
)
    requires
        upto <= a.len() <= b.len(),
        forall|k: int| 0 <= k < a.len() ==> a[k] == b[k],
    ensures
        local_diags(a, function, block, upto) == local_diags(b, function, block, upto),
    decreases upto,
{
    if upto > 0 {
        lemma_local_diags_prefix(a, b, function, block, upto - 1);
    }
}

proof fn lemma_block_diags_prefix(
    a: Seq<Seq<Verdict>>,
    b: Seq<Seq<Verdict>>,
    body: Body,
    topo: Seq<usize>,
    function: FnId,
    upto: int,
)
    requires
        upto <= a.len() <= b.len(),
        forall|k: int| 0 <= k < a.len() ==> a[k] == b[k],
    ensures
        block_diags(a, body, topo, function, upto) == block_diags(b, body, topo, function, upto),
    decreases upto,
{
    if upto > 0 {
        lemma_block_diags_prefix(a, b, body, topo, function, upto - 1);
    }
}

/// Asks the solver about every local at every returning block of a
/// function, in traversal order, and gathers the findings.
pub fn check_function(icx: &mut IntroFlowContext, body: &Body, graph: &Graph, function: FnId) -> (r:
    Vec<Diagnostic>)
    requires
        old(icx).wf(body.basic_blocks@.len(), body.local_decls as nat),
        all_below(graph.topo@, body.basic_blocks@.len()),
    ensures
        *final(icx) == *old(icx),
        explained(*body, graph.topo@, function, old(icx).exits(), r@),
{
    let mut found: Vec<Diagnostic> = Vec::new();
    let ghost mut vss: Seq<Seq<Verdict>> = Seq::empty();
    let ghost exits = icx.exits();
    let mut j: usize = 0;
    while j < graph.topo.len()
        invariant
            *icx == *old(icx),
            exits == icx.exits(),
            icx.wf(body.basic_blocks@.len(), body.local_decls as nat),
            all_below(graph.topo@, body.basic_blocks@.len()),
            j <= graph.topo@.len(),
            vss.len() == j,
            forall|k: int|
                0 <= k < j && body.basic_blocks@[graph.topo@[k] as int].terminator is Return ==> (
                #[trigger] vss[k]).len() == body.local_decls && admissible_at(
                    vss[k],
                    exits[graph.topo@[k] as int],
                ),
            found@ == block_diags(vss, *body, graph.topo@, function, j as int),
        decreases graph.topo@.len() - j,
    {
        let b = graph.topo[j];
        let ghost before = vss;
        if body.basic_blocks[b].terminator.is_return() {
            let slice = IcxSliceFroBlock::new_out(icx, b);
            assert(slice@.wf(body.local_decls as nat));
            assert(slice@.taint.len() == slice.taint@.len());
            assert(slice@.layout.len() == slice.layout@.len());
            let (mut more, Ghost(vs)) = check_block(&slice, function, b);
            assert(slice@ == exits[b as int]);
            found.append(&mut more);
            proof {
                vss = vss.push(vs);
            }
        } else {
            proof {
                vss = vss.push(Seq::empty());
            }
        }
        proof {
            lemma_block_diags_prefix(before, vss, *body, graph.topo@, function, j as int);
        }
        j += 1;
    }
    assert(answers(vss, *body, graph.topo@, exits));
    found
}

/// Whether `d` is the finding for the verdict `vss[j][d.local]` at some
/// position `j` among the first `upto` of the order: a position with the
/// block of `d`, which ends in a return, and a local of `body`.
pub open spec fn witnessed(
    d: Diagnostic,
    vss: Seq<Seq<Verdict>>,
    body: Body,
    topo: Seq<usize>,
    function: FnId,
    upto: int,
) -> bool {
    exists|j: int|
        0 <= j < upto && #[trigger] topo[j] == d.block
            && body.basic_blocks@[d.block as int].terminator is Return && d.local
            < body.local_decls && verdict_diag(vss[j][d.local as int], function, d.block, d.local)
            == Some(d)
}

proof fn lemma_local_sites(vs: Seq<Verdict>, function: FnId, block: usize, upto: int, k: int)
    requires
        0 <= k < local_diags(vs, function, block, upto).len(),
        upto <= usize::MAX,
    ensures
        local_diags(vs, function, block, upto)[k].local < upto,
        verdict_diag(
            vs[local_diags(vs, function, block, upto)[k].local as int],
            function,
            block,
            local_diags(vs, function, block, upto)[k].local,
        ) == Some(local_diags(vs, function, block, upto)[k]),
    decreases upto,
{
    if upto > 0 {
        let rest = local_diags(vs, function, block, upto - 1);
        if k < rest.len() {
            lemma_local_sites(vs, function, block, upto - 1, k);
        }
    }
}

proof fn lemma_block_sites(
    vss: Seq<Seq<Verdict>>,
    body: Body,
    topo: Seq<usize>,
    function: FnId,
    upto: int,
    k: int,
)
    requires
        0 <= k < block_diags(vss, body, topo, function, upto).len(),
    ensures
        witnessed(block_diags(vss, body, topo, function, upto)[k], vss, body, topo, function, upto),
    decreases upto,
{
    if upto > 0 {
        let rest = block_diags(vss, body, topo, function, upto - 1);
        let b = topo[upto - 1];
        if k < rest.len() {
            lemma_block_sites(vss, body, topo, function, upto - 1, k);
            let d = rest[k];
            let j = choose|j: int|
                0 <= j < upto - 1 && #[trigger] topo[j] == d.block
                    && body.basic_blocks@[d.block as int].terminator is Return && d.local
                    < body.local_decls && verdict_diag(
                    vss[j][d.local as int],
                    function,
                    d.block,
                    d.local,
                ) == Some(d);
            assert(0 <= j < upto && topo[j] == d.block);
        } else {
            lemma_local_sites(vss[upto - 1], function, b, body.local_decls as int, k - rest.len());
            assert(topo[upto - 1] == b);
        }
    }
}

/// Every finding can be located: it names the function that was checked, a
/// local of its body, and a block of the traversal order that ends in a
/// return.
pub proof fn lemma_findings_are_located(
    body: Body,
    topo: Seq<usize>,
    function: FnId,
    exits: Seq<SliceView>,
    diags: Seq<Diagnostic>,
    k: int,
)
    requires
        explained(body, topo, function, exits, diags),
        0 <= k < diags.len(),
    ensures
        diags[k].function == function,
        diags[k].local < body.local_decls,
        body.basic_blocks@[diags[k].block as int].terminator is Return,
        topo.contains(diags[k].block),
{
    let vss = choose|vss: Seq<Seq<Verdict>>|
        answers(vss, body, topo, exits) && #[trigger] block_diags(
            vss,
            body,
            topo,
            function,
            topo.len() as int,
        ) == diags;
    lemma_block_sites(vss, body, topo, function, topo.len() as int, k);
}

/// A hazard is reported only where there is one: at a local that is
/// tainted on the exit of its block and whose layout there has a uniquely
/// owned field.
pub proof fn lemma_hazard_is_real(
    body: Body,
    topo: Seq<usize>,
    function: FnId,
    exits: Seq<SliceView>,
    diags: Seq<Diagnostic>,
    k: int,
)
    requires
        explained(body, topo, function, exits, diags),
        0 <= k < diags.len(),
        diags[k].reason == Reason::Hazard,
    ensures
        !exits[diags[k].block as int].taint[diags[k].local as int].is_empty(),
        has_unique(exits[diags[k].block as int].layout[diags[k].local as int]),
{
    let vss = choose|vss: Seq<Seq<Verdict>>|
        answers(vss, body, topo, exits) && #[trigger] block_diags(
            vss,
            body,
            topo,
            function,
            topo.len() as int,
        ) == diags;
    lemma_block_sites(vss, body, topo, function, topo.len() as int, k);
    let d = diags[k];
    let j = choose|j: int|
        0 <= j < topo.len() && #[trigger] topo[j] == d.block
            && body.basic_blocks@[d.block as int].terminator is Return && d.local
            < body.local_decls && verdict_diag(vss[j][d.local as int], function, d.block, d.local)
            == Some(d);
    assert(admissible_at(vss[j], exits[topo[j] as int]));
    assert(vss[j][d.local as int] == Verdict::Unsat);
}

proof fn lemma_local_covers(vs: Seq<Verdict>, function: FnId, block: usize, upto: int, l: int)
    requires
        0 <= l < upto <= usize::MAX,
        vs[l] != Verdict::Sat,
    ensures
        local_diags(vs, function, block, upto).contains(
            verdict_diag(vs[l], function, block, l as usize)->0,
        ),
    decreases upto,
{
    let rest = local_diags(vs, function, block, upto - 1);
    let all = local_diags(vs, function, block, upto);
    let d = verdict_diag(vs[l], function, block, l as usize)->0;
    if l == upto - 1 {
        assert(all == rest.push(d));
        assert(all[rest.len() as int] == d);
    } else {
        lemma_local_covers(vs, function, block, upto - 1, l);
        let k = choose|k: int| 0 <= k < rest.len() && rest[k] == d;
        assert(all[k] == d);
    }
}

proof fn lemma_block_covers(
    vss: Seq<Seq<Verdict>>,
    body: Body,
    topo: Seq<usize>,
    function: FnId,
    upto: int,
    j: int,
    l: int,
)
    requires
        0 <= j < upto,
        body.basic_blocks@[topo[j] as int].terminator is Return,
        0 <= l < body.local_decls,
        vss[j][l] != Verdict::Sat,
    ensures
        block_diags(vss, body, topo, function, upto).contains(
            verdict_diag(vss[j][l], function, topo[j], l as usize)->0,
        ),
    decreases upto,
{
    let rest = block_diags(vss, body, topo, function, upto - 1);
    let all = block_diags(vss, body, topo, function, upto);
    let d = verdict_diag(vss[j][l], function, topo[j], l as usize)->0;
    if j == upto - 1 {
        let here = local_diags(vss[j], function, topo[j], body.local_decls as int);
        lemma_local_covers(vss[j], function, topo[j], body.local_decls as int, l);
        let k = choose|k: int| 0 <= k < here.len() && here[k] == d;
        assert(all == rest + here);
        assert(all[rest.len() + k] == d);
    } else {
        lemma_block_covers(vss, body, topo, function, upto - 1, j, l);
        let k = choose|k: int| 0 <= k < rest.len() && rest[k] == d;
        assert(all[k] == d);
    }
}

/// No hazard goes unreported: for a local that is tainted on the exit of a
/// returning block of the order and whose layout there has a uniquely owned
/// field, there is a finding at that block and local.
pub proof fn lemma_hazard_is_reported(
    body: Body,
    topo: Seq<usize>,
    function: FnId,
    exits: Seq<SliceView>,
    diags: Seq<Diagnostic>,
    j: int,
    l: int,
)
    requires
        explained(body, topo, function, exits, diags),
        0 <= j < topo.len(),
        body.basic_blocks@[topo[j] as int].terminator is Return,
        0 <= l < body.local_decls,
        !exits[topo[j] as int].taint[l].is_empty(),
        has_unique(exits[topo[j] as int].layout[l]),
    ensures
        exists|k: int|
            0 <= k < diags.len() && (#[trigger] diags[k]).function == function && diags[k].block
                == topo[j] && diags[k].local == l,
{
    let vss = choose|vss: Seq<Seq<Verdict>>|
        answers(vss, body, topo, exits) && #[trigger] block_diags(
            vss,
            body,
            topo,
            function,
            topo.len() as int,
        ) == diags;
    assert(admissible_at(vss[j], exits[topo[j] as int]));
    assert(admissible(vss[j][l], exits[topo[j] as int].taint[l], exits[topo[j] as int].layout[l]));
    lemma_block_covers(vss, body, topo, function, topo.len() as int, j, l);
    let d = verdict_diag(vss[j][l], function, topo[j], l as usize)->0;
    let k = choose|k: int| 0 <= k < diags.len() && diags[k] == d;
    assert(diags[k].function == function && diags[k].block == topo[j] && diags[k].local == l);
}

} // verus!
