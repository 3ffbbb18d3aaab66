//! The two switches that make a run talkative.
use vstd::prelude::*;

verus! {

/// Whether the goals handed to the solver are dumped to the trace.
#[derive(Debug, Copy, Clone, Hash, PartialEq, Eq, Structural)]
pub enum Z3GoalDisplay {
    Verbose,
    Disabled,
}

/// Whether the working slice of each block is dumped to the trace.
#[derive(Debug, Copy, Clone, Hash, PartialEq, Eq, Structural)]
pub enum IcxSliceDisplay {
    Verbose,
    Disabled,
}

impl Z3GoalDisplay {
    /// The setting that follows from whether the toggle is present in the
    /// process environment: present means verbose, whatever its value.
    pub fn from_presence(present: bool) -> (r: Self)
        ensures
            r == if present {
                Z3GoalDisplay::Verbose
            } else {
                Z3GoalDisplay::Disabled
            },
    {
        if present {
            Z3GoalDisplay::Verbose
        } else {
            Z3GoalDisplay::Disabled
        }
    }

    pub fn is_verbose(&self) -> (r: bool)
        ensures
            r == (*self == Z3GoalDisplay::Verbose),
    {
        match self {
            Z3GoalDisplay::Verbose => true,
            Z3GoalDisplay::Disabled => false,
        }
    }
}

impl IcxSliceDisplay {
    /// The setting that follows from whether the toggle is present in the
    /// process environment: present means verbose, whatever its value.
    pub fn from_presence(present: bool) -> (r: Self)
        ensures
            r == if present {
                IcxSliceDisplay::Verbose
            } else {
                IcxSliceDisplay::Disabled
            },
    {
        if present {
            IcxSliceDisplay::Verbose
        } else {
            IcxSliceDisplay::Disabled
        }
    }

    pub fn is_verbose(&self) -> (r: bool)
        ensures
            r == (*self == IcxSliceDisplay::Verbose),
    {
        match self {
            IcxSliceDisplay::Verbose => true,
            IcxSliceDisplay::Disabled => false,
        }
    }
}

} // verus!
