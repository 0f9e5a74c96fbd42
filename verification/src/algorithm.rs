//! The list-scheduling algorithms that give a priority list.

use vstd::prelude::*;
use vstd::string::StringExecFns;

verus! {

/// A strategy for the priority list.
#[derive(Clone, Copy, Debug, PartialEq, Eq, Structural)]
pub enum Algorithm {
    /// Most successors first.
    Msf,
    /// The Coffman–Graham algorithm.
    Cg,
}

impl Algorithm {
    /// The name under which the algorithm is reported.
    pub open spec fn label(self) -> Seq<char> {
        match self {
            Algorithm::Msf => "MSF"@,
            Algorithm::Cg => "CG"@,
        }
    }

    /// The name under which the algorithm is reported.
    pub fn name(&self) -> (s: String)
        ensures
            s@ == self.label(),
    {
        match self {
            Algorithm::Msf => String::from_str("MSF"),
            Algorithm::Cg => String::from_str("CG"),
        }
    }
}

} // verus!
