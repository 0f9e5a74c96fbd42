//! The report on the order of a graph.

use vstd::prelude::*;
use vstd::string::StringExecFns;
use crate::graph::PrecedenceGraph;
use crate::interval::is_interval_order;

verus! {

/// The line that reports whether the order is a quasi-interval order.
pub open spec fn interval_report(holds: bool) -> Seq<char> {
    if holds {
        "Graph is a quasi-interval order"@
    } else {
        "Graph is not a quasi-interval order"@
    }
}

/// Classifies the order of the graph and reports the result in a line.
pub fn is_quasi_interval_order(graph: &PrecedenceGraph) -> (line: String)
    requires
        graph.wf(),
    ensures
        line@ == interval_report(is_interval_order(graph.edges())),
{
    if graph.is_quasi_interval_order() {
        String::from_str("Graph is a quasi-interval order")
    } else {
        String::from_str("Graph is not a quasi-interval order")
    }
}

} // verus!
