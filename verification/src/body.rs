//! The body of a function as the analysis sees it: blocks, statements and
//! terminators, with the facts they touch named by number.
use crate::graph::FnId;
use crate::ownership::{Label, TyWithIndex};
use vstd::prelude::*;

verus! {

/// How an operation changes the length of a collection.
#[derive(Clone, Copy, Debug, PartialEq, Eq)]
pub enum LenChange {
    /// That many elements are added.
    Grow(usize),
    /// That many elements are removed.
    Shrink(usize),
    /// The new length cannot be told from the code.
    Unknown,
}

/// One statement of a block, as far as the tracked facts see it.
#[derive(Debug)]
pub enum Statement {
    /// `local` comes alive as a new binding.
    Introduce { local: usize },
    /// `target` is computed from `operands`. Where the operation is itself a
    /// source of taint, `source` is the origin it brings in.
    Assign { target: usize, operands: Vec<usize>, source: Option<Label> },
    /// `target` becomes an empty collection.
    Construct { target: usize },
    /// The collection in `target` changes its length.
    Resize { target: usize, change: LenChange },
    /// `target` is bound anew, to a value of the shape `ty`.
    Rebind { target: usize, ty: TyWithIndex },
    /// Nothing that the tracked facts see.
    Nop,
}

/// How a block ends.
#[derive(Debug)]
pub enum Terminator {
    /// Control goes on to one of `targets`.
    Goto { targets: Vec<usize> },
    /// `callee` is called with the locals `args`; what it returns goes to
    /// `dest`. Control goes on to one of `targets`.
    Call { callee: FnId, args: Vec<usize>, dest: usize, targets: Vec<usize> },
    /// The function returns.
    Return,
}

#[derive(Debug)]
pub struct BasicBlock {
    pub statements: Vec<Statement>,
    pub terminator: Terminator,
    /// The block only runs while a panic unwinds.
    pub is_cleanup: bool,
}

/// The executable body of one function.
#[derive(Debug)]
pub struct Body {
    /// How many locals the function has. Local 0 holds what it returns, the
    /// locals after it hold its arguments.
    pub local_decls: usize,
    pub basic_blocks: Vec<BasicBlock>,
}

/// Every entry of `xs` is below `bound`.
pub open spec fn all_below(xs: Seq<usize>, bound: nat) -> bool {
    forall|k: int| 0 <= k < xs.len() ==> (#[trigger] xs[k]) < bound
}

/// Whether every entry of `xs` is below `bound`.
pub fn check_all_below(xs: &Vec<usize>, bound: usize) -> (r: bool)
    ensures
        r == all_below(xs@, bound as nat),
{
    let mut k: usize = 0;
    while k < xs.len()
        invariant
            k <= xs.len(),
            forall|j: int| 0 <= j < k ==> (#[trigger] xs@[j]) < bound,
        decreases xs.len() - k,
    {
        if xs[k] >= bound {
            return false;
        }
        k += 1;
    }
    true
}

impl Statement {
    /// The statement names only locals below `locals`.
    pub open spec fn within(self, locals: nat) -> bool {
        match self {
            Statement::Introduce { local } => local < locals,
            Statement::Assign { target, operands, source } => target < locals && all_below(
                operands@,
                locals,
            ),
            Statement::Construct { target } => target < locals,
            Statement::Resize { target, change } => target < locals,
            Statement::Rebind { target, ty } => target < locals,
            Statement::Nop => true,
        }
    }

    pub fn check(&self, locals: usize) -> (r: bool)
        ensures
            r == self.within(locals as nat),
    {
        match self {
            Statement::Introduce { local } => *local < locals,
            Statement::Assign { target, operands, source } => *target < locals && check_all_below(
                operands,
                locals,
            ),
            Statement::Construct { target } => *target < locals,
            Statement::Resize { target, change } => *target < locals,
            Statement::Rebind { target, ty } => *target < locals,
            Statement::Nop => true,
        }
    }
}

impl Terminator {
    /// The blocks that control may go on to.
    pub open spec fn targets(self) -> Seq<usize> {
        match self {
            Terminator::Goto { targets } => targets@,
            Terminator::Call { callee, args, dest, targets } => targets@,
            Terminator::Return => Seq::empty(),
        }
    }

    /// The terminator names only locals below `locals` and blocks below
    /// `blocks`.
    pub open spec fn within(self, locals: nat, blocks: nat) -> bool {
        match self {
            Terminator::Goto { targets } => all_below(targets@, blocks),
            Terminator::Call { callee, args, dest, targets } => dest < locals && all_below(
                args@,
                locals,
            ) && all_below(targets@, blocks),
            Terminator::Return => true,
        }
    }

    pub fn check(&self, locals: usize, blocks: usize) -> (r: bool)
        ensures
            r == self.within(locals as nat, blocks as nat),
    {
        match self {
            Terminator::Goto { targets } => check_all_below(targets, blocks),
            Terminator::Call { callee, args, dest, targets } => *dest < locals && check_all_below(
                args,
                locals,
            ) && check_all_below(targets, blocks),
            Terminator::Return => true,
        }
    }
}

impl BasicBlock {
    pub open spec fn within(self, locals: nat, blocks: nat) -> bool {
        &&& forall|k: int|
            0 <= k < self.statements@.len() ==> (#[trigger] self.statements@[k]).within(locals)
        &&& self.terminator.within(locals, blocks)
    }

    pub fn check(&self, locals: usize, blocks: usize) -> (r: bool)
        ensures
            r == self.within(locals as nat, blocks as nat),
    {
        let mut k: usize = 0;
        while k < self.statements.len()
            invariant
                k <= self.statements@.len(),
                forall|j: int| 0 <= j < k ==> (#[trigger] self.statements@[j]).within(locals as nat),
            decreases self.statements@.len() - k,
        {
            if !self.statements[k].check(locals) {
                return false;
            }
            k += 1;
        }
        self.terminator.check(locals, blocks)
    }
}

impl Body {
    /// Every local and every block that the body names exists.
    pub open spec fn wf(self) -> bool {
        forall|b: int|
            0 <= b < self.basic_blocks@.len() ==> (#[trigger] self.basic_blocks@[b]).within(
                self.local_decls as nat,
                self.basic_blocks@.len(),
            )
    }

    /// Whether every local and every block that the body names exists.
    pub fn check(&self) -> (r: bool)
        ensures
            r == self.wf(),
    {
        let n = self.basic_blocks.len();
        let mut b: usize = 0;
        while b < n
            invariant
                n == self.basic_blocks@.len(),
                b <= n,
                forall|c: int|
                    0 <= c < b ==> (#[trigger] self.basic_blocks@[c]).within(
                        self.local_decls as nat,
                        n as nat,
                    ),
            decreases n - b,
        {
            if !self.basic_blocks[b].check(self.local_decls, n) {
                return false;
            }
            b += 1;
        }
        true
    }
}

/// Those of `targets` that are no cleanup blocks, in their order.
pub open spec fn live_targets(blocks: Seq<BasicBlock>, targets: Seq<usize>) -> Seq<usize>
    decreases targets.len(),
{
    if targets.len() == 0 {
        Seq::empty()
    } else {
        let rest = live_targets(blocks, targets.drop_last());
        if blocks[targets.last() as int].is_cleanup {
            rest
        } else {
            rest.push(targets.last())
        }
    }
}

/// The successor lists of a body: for each block the targets of its
/// terminator, without those that only run while a panic unwinds.
pub open spec fn cfg_succ(body: Body) -> Seq<Seq<usize>> {
    Seq::new(
        body.basic_blocks@.len(),
        |u: int| live_targets(body.basic_blocks@, body.basic_blocks@[u].terminator.targets()),
    )
}

} // verus!
