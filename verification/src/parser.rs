//! Reading a precedence graph from its textual form: a sequence of pairs
//! such as `(1,2)(2,3)`, each an edge from the first task to the second.

use vstd::prelude::*;
use crate::graph::PrecedenceGraph;

pub use file_parser::{FileParser, FileParserError, FileSource};
pub use string_parser::{StringParser, StringParserError};

pub mod file_parser;
pub mod string_parser;

verus! {

/// A way of getting a graph from a source of some kind.
pub trait GraphParser {
    /// What the graph is read from.
    type Source<'a>;

    /// Why a source yields no graph.
    type Failure;

    /// `r` is what reading `source` comes to.
    spec fn reads(source: Self::Source<'_>, r: Result<PrecedenceGraph, Self::Failure>) -> bool;

    /// Reads the graph of the source.
    fn parse(source: Self::Source<'_>) -> (r: Result<PrecedenceGraph, Self::Failure>)
        ensures
            Self::reads(source, r),
    ;
}

} // verus!
