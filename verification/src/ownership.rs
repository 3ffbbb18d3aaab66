//! The kinds of fact that are kept for a local.
use std::collections::HashSet;
use vstd::prelude::*;
use vstd::std_specs::hash::*;

verus! {

broadcast use vstd::std_specs::hash::group_hash_axioms;

/// An opaque tag that names where a value may have come from.
pub type Label = u64;

/// The origins that may have influenced one local.
#[derive(Debug)]
pub struct Taint {
    set: HashSet<Label>,
}

impl View for Taint {
    type V = Set<Label>;

    closed spec fn view(&self) -> Set<Label> {
        self.set@
    }
}

impl Taint {
    /// No label at all.
    pub fn is_untainted(&self) -> (r: bool)
        ensures
            r == self@.is_empty(),
    {
        self.set.is_empty()
    }

    /// At least one label.
    pub fn is_tainted(&self) -> (r: bool)
        ensures
            r == !self@.is_empty(),
    {
        !self.set.is_empty()
    }

    /// The labels as the collection that holds them.
    pub fn set(&self) -> (r: &HashSet<Label>)
        ensures
            r@ == self@,
    {
        &self.set
    }

    /// How many labels there are.
    pub fn count(&self) -> (r: usize)
        ensures
            r == self@.len(),
    {
        self.set.len()
    }

    pub fn contains(&self, k: Label) -> (r: bool)
        ensures
            r == self@.contains(k),
    {
        self.set.contains(&k)
    }

    pub fn insert(&mut self, k: Label)
        ensures
            final(self)@ == old(self)@.insert(k),
    {
        self.set.insert(k);
    }

    /// Adds every label of `other`.
    pub fn absorb(&mut self, other: &Taint)
        ensures
            final(self)@ == old(self)@.union(other@),
    {
        broadcast use lemma_drawn_all;

        let ghost before = self@;
        for x in it: other.set.iter()
            invariant
                it.seq().unref().to_set() == other.set@,
                self.set@ == before.union(drawn(it.seq(), it.index())),
        {
            proof {
                lemma_drawn_step(it.seq(), it.index());
            }
            self.set.insert(*x);
        }
    }
}

/// The labels among the first `n` items of `seq`.
pub open spec fn drawn(seq: Seq<&Label>, n: int) -> Set<Label> {
    Set::new(|l: Label| exists|j: int| 0 <= j < n && *#[trigger] seq[j] == l)
}

/// One more item drawn adds its label.
pub proof fn lemma_drawn_step(seq: Seq<&Label>, n: int)
    requires
        0 <= n < seq.len(),
    ensures
        drawn(seq, n + 1) == drawn(seq, n).insert(*seq[n]),
{
    assert forall|l: Label| drawn(seq, n + 1).contains(l) <==> drawn(seq, n).insert(
        *seq[n],
    ).contains(l) by {
        if drawn(seq, n).contains(l) {
            let j = choose|j: int| 0 <= j < n && *#[trigger] seq[j] == l;
            assert(0 <= j < n + 1 && *seq[j] == l);
        }
        if l == *seq[n] {
            assert(0 <= n < n + 1 && *seq[n] == l);
        }
    }
    assert(drawn(seq, n + 1) =~= drawn(seq, n).insert(*seq[n]));
}

/// All items drawn give the labels of the whole sequence.
pub broadcast proof fn lemma_drawn_all(seq: Seq<&Label>)
    ensures
        #[trigger] drawn(seq, seq.len() as int) == seq.unref().to_set(),
{
    let un = seq.unref();
    assert forall|l: Label| drawn(seq, seq.len() as int).contains(l) <==> un.to_set().contains(
        l,
    ) by {
        if drawn(seq, seq.len() as int).contains(l) {
            let j = choose|j: int| 0 <= j < seq.len() && *#[trigger] seq[j] == l;
            assert(un[j] == l);
            assert(un.contains(l));
        }
        if un.to_set().contains(l) {
            assert(un.contains(l));
            let j = choose|j: int| 0 <= j < un.len() && un[j] == l;
            assert(*seq[j] == l);
        }
    }
    assert(drawn(seq, seq.len() as int) =~= un.to_set());
}

impl Clone for Taint {
    fn clone(&self) -> (r: Self)
        ensures
            r@ == self@,
    {
        let mut r = Taint { set: HashSet::new() };
        r.absorb(self);
        r
    }
}

impl Default for Taint {
    fn default() -> (r: Self)
        ensures
            r@ == Set::<Label>::empty(),
    {
        Taint { set: HashSet::new() }
    }
}

/// The length that stands for "not known".
pub const UNKNOWN_LEN: usize = usize::MAX;

/// The identity of a binding that a block introduced.
#[derive(Clone, Copy, Debug, PartialEq, Eq, Structural)]
pub enum IntroVar {
    /// Carried over or never bound here.
    Declared,
    /// Bound in this block's simulation, under the given identity.
    Init(u64),
    /// Bound, but no identity was left to give.
    Unsupported,
}

impl Default for IntroVar {
    fn default() -> (r: Self)
        ensures
            r == IntroVar::Declared,
    {
        IntroVar::Declared
    }
}

/// Which entry of the layout catalog describes the value a local now holds.
#[derive(Clone, Copy, Debug, PartialEq, Eq)]
pub struct TyWithIndex(pub Option<usize>);

impl Default for TyWithIndex {
    fn default() -> (r: Self)
        ensures
            r == TyWithIndex(None),
    {
        TyWithIndex(None)
    }
}

impl TyWithIndex {
    pub fn is_unset(&self) -> (r: bool)
        ensures
            r == (*self == TyWithIndex(None)),
    {
        match self.0 {
            None => true,
            Some(_) => false,
        }
    }
}

/// How one field of a structural type holds what it points to.
#[derive(Clone, Copy, Debug, PartialEq, Eq, Structural)]
pub enum OwnerTag {
    Unique,
    Shared,
    Borrowed,
    Irrelevant,
}

/// The tags of a structural type's fields, in declaration order.
pub type OwnershipLayout = Vec<OwnerTag>;

/// The layout that stands for a type the catalog cannot resolve.
pub open spec fn unknown_layout() -> Seq<OwnerTag> {
    seq![OwnerTag::Irrelevant]
}

/// The layout the catalog `layouts` gives for `ty`.
pub open spec fn catalog_layout(layouts: Seq<OwnershipLayout>, ty: TyWithIndex) -> Seq<OwnerTag> {
    match ty.0 {
        Some(i) if i < layouts.len() => layouts[i as int]@,
        _ => unknown_layout(),
    }
}

/// Whether a layout has a field that claims sole ownership.
pub open spec fn has_unique(layout: Seq<OwnerTag>) -> bool {
    exists|k: int| 0 <= k < layout.len() && #[trigger] layout[k] == OwnerTag::Unique
}

/// Whether a layout has a field that claims sole ownership.
pub fn layout_has_unique(layout: &OwnershipLayout) -> (r: bool)
    ensures
        r == has_unique(layout@),
{
    let mut k: usize = 0;
    while k < layout.len()
        invariant
            k <= layout.len(),
            forall|j: int| 0 <= j < k ==> layout[j] != OwnerTag::Unique,
        decreases layout.len() - k,
    {
        if layout[k] == OwnerTag::Unique {
            return true;
        }
        k += 1;
    }
    false
}

/// A copy of a layout, tag for tag.
pub fn copy_layout(layout: &OwnershipLayout) -> (r: OwnershipLayout)
    ensures
        r@ == layout@,
{
    let mut r: OwnershipLayout = Vec::new();
    let mut k: usize = 0;
    while k < layout.len()
        invariant
            k <= layout.len(),
            r@ == layout@.take(k as int),
        decreases layout.len() - k,
    {
        r.push(layout[k]);
        k += 1;
    }
    r
}

/// The catalog of ownership layouts, one for each structural type that was
/// declared, found by the type's index.
#[derive(Debug)]
pub struct AdtOwner {
    pub layouts: Vec<OwnershipLayout>,
}

impl AdtOwner {
    pub fn new(layouts: Vec<OwnershipLayout>) -> (r: Self)
        ensures
            r.layouts == layouts,
    {
        AdtOwner { layouts }
    }

    /// The layout of `ty`; the unknown layout where the catalog has none.
    pub fn layout_of(&self, ty: TyWithIndex) -> (r: OwnershipLayout)
        ensures
            r@ == catalog_layout(self.layouts@, ty),
    {
        match ty.0 {
            Some(i) => {
                if i < self.layouts.len() {
                    copy_layout(&self.layouts[i])
                } else {
                    vec![OwnerTag::Irrelevant]
                }
            },
            None => vec![OwnerTag::Irrelevant],
        }
    }
}

} // verus!
