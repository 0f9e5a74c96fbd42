//! The report on the priority list of a graph.

use vstd::prelude::*;
use vstd::string::StringExecFns;
use crate::algorithm::Algorithm;
use crate::coffman_graham::is_cg_list;
use crate::decimal::{decimal, digits_text};
use crate::graph::PrecedenceGraph;
use crate::msf::{is_msf_list, SuccessorCount};
use crate::text::text_of;

verus! {

/// The numbers of a list in decimal notation, a comma and a blank between
/// them.
pub open spec fn items_text(list: Seq<u128>) -> Seq<char>
    decreases list.len(),
{
    if list.len() == 0 {
        Seq::empty()
    } else if list.len() == 1 {
        digits_text(list[0] as nat)
    } else {
        items_text(list.drop_last()) + seq![',', ' '] + digits_text(list.last() as nat)
    }
}

/// A list of numbers as text: its items in square brackets.
pub open spec fn list_text(list: Seq<u128>) -> Seq<char> {
    seq!['['] + items_text(list) + seq![']']
}

/// `list` is the priority list that `algorithm` gives for the graph.
pub open spec fn is_list_by(
    nodes: Set<u128>,
    edges: Set<(u128, u128)>,
    algorithm: Algorithm,
    list: Seq<u128>,
) -> bool {
    match algorithm {
        Algorithm::Msf => is_msf_list(nodes, edges, SuccessorCount::Immediate, list),
        Algorithm::Cg => is_cg_list(nodes, edges, list),
    }
}

/// The line that reports a priority list.
pub open spec fn priority_report(algorithm: Algorithm, list: Seq<u128>) -> Seq<char> {
    "Priority list using algorithm "@ + algorithm.label() + ": "@ + list_text(list)
}

/// The priority list of the graph under the given algorithm.
pub fn priority_list(graph: &PrecedenceGraph, algorithm: &Algorithm) -> (list: Vec<u128>)
    requires
        graph.wf(),
    ensures
        is_list_by(graph.nodes(), graph.edges(), *algorithm, list@),
{
    match algorithm {
        Algorithm::Msf => graph.msf_list(),
        Algorithm::Cg => graph.cg_list(),
    }
}

/// A list of numbers written out.
pub fn write_list(list: &Vec<u128>) -> (r: Vec<char>)
    ensures
        r@ == list_text(list@),
{
    let mut r: Vec<char> = Vec::new();
    r.push('[');
    let mut i: usize = 0;
    proof {
        assert(list@.take(0) =~= Seq::<u128>::empty());
    }
    while i < list.len()
        invariant
            i <= list@.len(),
            r@ == seq!['['] + items_text(list@.take(i as int)),
        decreases list@.len() - i,
    {
        let ghost before = r@;
        let ghost front = list@.take(i as int);
        let ghost next = list@.take(i as int + 1);
        proof {
            assert(next.drop_last() =~= front);
            assert(next.last() == list@[i as int]);
        }
        if i > 0 {
            r.push(',');
            r.push(' ');
        }
        let digits = decimal(list[i]);
        let mut j: usize = 0;
        let ghost start = r@;
        while j < digits.len()
            invariant
                j <= digits@.len(),
                r@ == start + digits@.take(j as int),
            decreases digits@.len() - j,
        {
            r.push(digits[j]);
            assert(digits@.take(j as int + 1) =~= digits@.take(j as int).push(digits@[j as int]));
            j = j + 1;
        }
        proof {
            assert(digits@.take(digits@.len() as int) =~= digits@);
            if i == 0 {
                assert(front =~= Seq::<u128>::empty());
                assert(next[0] == list@[0]);
                assert(r@ =~= seq!['['] + items_text(next));
            } else {
                assert(start =~= before + seq![',', ' ']);
                assert(r@ =~= seq!['['] + items_text(next));
            }
        }
        i = i + 1;
    }
    proof {
        assert(list@.take(list@.len() as int) =~= list@);
    }
    r.push(']');
    r
}

/// Computes the priority list of the graph under the given algorithm and
/// reports it in a line.
pub fn get_priority_list(graph: &PrecedenceGraph, algorithm: &Algorithm) -> (line: String)
    requires
        graph.wf(),
    ensures
        exists|list: Seq<u128>|
            is_list_by(graph.nodes(), graph.edges(), *algorithm, list) && line@ == priority_report(
                *algorithm,
                list,
            ),
{
    let list = priority_list(graph, algorithm);
    let written = text_of(&write_list(&list));
    let name = algorithm.name();
    let mut line = String::from_str("Priority list using algorithm ");
    line.append(name.as_str());
    line.append(": ");
    line.append(written.as_str());
    proof {
        assert(line@ == priority_report(*algorithm, list@));
    }
    line
}

} // verus!
