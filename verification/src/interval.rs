//! The order classifier: is the partial order of a precedence graph an
//! interval order, that is, free of two parallel chains?

use vstd::prelude::*;
use crate::graph::PrecedenceGraph;
use crate::relation::{
    incomparable, joins, lemma_reachable_trans, lemma_reachable_within, links, reachable,
    valid_graph,
};

verus! {

/// The pattern an interval order forbids: four distinct tasks forming two
/// chains, `w` before `x` and `y` before `z`, neither chain ordered against
/// the other.
pub open spec fn forbidden_pattern(
    edges: Set<(u128, u128)>,
    w: u128,
    x: u128,
    y: u128,
    z: u128,
) -> bool {
    &&& w != x && w != y && w != z && x != y && x != z && y != z
    &&& reachable(edges, w, x)
    &&& reachable(edges, y, z)
    &&& incomparable(edges, w, z)
    &&& incomparable(edges, y, x)
}

/// The partial order induced by `edges` is an interval order.
pub open spec fn is_interval_order(edges: Set<(u128, u128)>) -> bool {
    forall|w: u128, x: u128, y: u128, z: u128| !#[trigger] forbidden_pattern(edges, w, x, y, z)
}

/// Two chains that cross nowhere: `x` is after `w` but not after `y`, and `z`
/// is after `y` but not after `w`.
pub open spec fn parallel_chains(
    edges: Set<(u128, u128)>,
    w: u128,
    x: u128,
    y: u128,
    z: u128,
) -> bool {
    &&& reachable(edges, w, x)
    &&& !reachable(edges, y, x)
    &&& reachable(edges, y, z)
    &&& !reachable(edges, w, z)
}

/// In a valid graph two parallel chains are an instance of the forbidden
/// pattern: the four tasks are distinct and the chains incomparable.
pub proof fn lemma_parallel_chains_forbidden(
    nodes: Set<u128>,
    edges: Set<(u128, u128)>,
    w: u128,
    x: u128,
    y: u128,
    z: u128,
)
    requires
        valid_graph(nodes, edges),
        parallel_chains(edges, w, x, y, z),
    ensures
        forbidden_pattern(edges, w, x, y, z),
{
    assert(!reachable(edges, w, w));
    assert(!reachable(edges, y, y));
    assert(!reachable(edges, x, x));
    assert(!reachable(edges, z, z));
    if w == z {
        lemma_reachable_trans(edges, y, w, x);
    }
    if x == y {
        lemma_reachable_trans(edges, w, y, z);
    }
    if reachable(edges, z, w) {
        lemma_reachable_trans(edges, y, z, w);
        lemma_reachable_trans(edges, y, w, x);
    }
    if reachable(edges, x, y) {
        lemma_reachable_trans(edges, w, x, y);
        lemma_reachable_trans(edges, w, y, z);
    }
}

/// A graph without edges orders nothing, so it is an interval order whatever
/// its nodes.
pub proof fn law_edgeless_is_interval_order(edges: Set<(u128, u128)>)
    requires
        edges == Set::<(u128, u128)>::empty(),
    ensures
        is_interval_order(edges),
{
    assert forall|w: u128, x: u128, y: u128, z: u128| !#[trigger] forbidden_pattern(
        edges,
        w,
        x,
        y,
        z,
    ) by {
        if reachable(edges, w, x) {
            let p = choose|p: Seq<u128>| joins(edges, p, w, x);
            assert(links(edges, p, 0));
        }
    }
}

/// The chains from position `w` to `x` and from `y` to `z` are parallel.
pub open spec fn parallel_at(g: &PrecedenceGraph, w: int, x: int, y: int, z: int) -> bool {
    parallel_chains(
        g.edges(),
        g.node_seq()[w],
        g.node_seq()[x],
        g.node_seq()[y],
        g.node_seq()[z],
    )
}

/// Position `x` is after `w` and not after `y`.
pub open spec fn after_only(g: &PrecedenceGraph, w: int, y: int, x: int) -> bool {
    reachable(g.edges(), g.node_seq()[w], g.node_seq()[x]) && !reachable(
        g.edges(),
        g.node_seq()[y],
        g.node_seq()[x],
    )
}

impl PrecedenceGraph {
    /// Decides whether the partial order of the graph is an interval order.
    /// For every two nodes it looks for a task after the first alone and a
    /// task after the second alone; the order is an interval order exactly if
    /// no two nodes have both.
    pub fn is_quasi_interval_order(&self) -> (r: bool)
        requires
            self.wf(),
        ensures
            r == is_interval_order(self.edges()),
            self.edges() == Set::<(u128, u128)>::empty() ==> r,
    {
        let n = self.len();
        let mut w: usize = 0;
        while w < n
            invariant
                self.wf(),
                n == self.node_seq().len(),
                w <= n,
                forall|a: int, x: int, y: int, z: int|
                    0 <= a < w && 0 <= x < n && 0 <= y < n && 0 <= z < n ==> !#[trigger] parallel_at(
                        self,
                        a,
                        x,
                        y,
                        z,
                    ),
            decreases n - w,
        {
            let mut y: usize = 0;
            while y < n
                invariant
                    self.wf(),
                    n == self.node_seq().len(),
                    w < n,
                    y <= n,
                    forall|a: int, x: int, y: int, z: int|
                        0 <= a < w && 0 <= x < n && 0 <= y < n && 0 <= z < n
                            ==> !#[trigger] parallel_at(self, a, x, y, z),
                    forall|x: int, b: int, z: int|
                        0 <= x < n && 0 <= b < y && 0 <= z < n ==> !#[trigger] parallel_at(
                            self,
                            w as int,
                            x,
                            b,
                            z,
                        ),
                decreases n - y,
            {
                let mut first_only = false;
                let mut second_only = false;
                let ghost mut wx: int = 0;
                let ghost mut yz: int = 0;
                let mut x: usize = 0;
                while x < n
                    invariant
                        self.wf(),
                        n == self.node_seq().len(),
                        w < n,
                        y < n,
                        x <= n,
                        first_only ==> 0 <= wx < n && after_only(self, w as int, y as int, wx),
                        second_only ==> 0 <= yz < n && after_only(self, y as int, w as int, yz),
                        !first_only ==> forall|c: int|
                            0 <= c < x ==> !#[trigger] after_only(self, w as int, y as int, c),
                        !second_only ==> forall|c: int|
                            0 <= c < x ==> !#[trigger] after_only(self, y as int, w as int, c),
                    decreases n - x,
                {
                    let from_w = self.precedes_at(w, x);
                    let from_y = self.precedes_at(y, x);
                    if from_w && !from_y {
                        first_only = true;
                        proof {
                            wx = x as int;
                        }
                    }
                    if from_y && !from_w {
                        second_only = true;
                        proof {
                            yz = x as int;
                        }
                    }
                    x = x + 1;
                }
                if first_only && second_only {
                    proof {
                        if self.edges() == Set::<(u128, u128)>::empty() {
                            law_edgeless_is_interval_order(self.edges());
                        }
                        assert(parallel_at(self, w as int, wx, y as int, yz));
                        lemma_parallel_chains_forbidden(
                            self.nodes(),
                            self.edges(),
                            self.node_seq()[w as int],
                            self.node_seq()[wx],
                            self.node_seq()[y as int],
                            self.node_seq()[yz],
                        );
                    }
                    return false;
                }
                proof {
                    assert forall|x: int, z: int| 0 <= x < n && 0 <= z < n implies !#[trigger] parallel_at(
                        self,
                        w as int,
                        x,
                        y as int,
                        z,
                    ) by {
                        if parallel_at(self, w as int, x, y as int, z) {
                            assert(after_only(self, w as int, y as int, x));
                            assert(after_only(self, y as int, w as int, z));
                        }
                    }
                }
                y = y + 1;
            }
            w = w + 1;
        }
        proof {
            let edges = self.edges();
            let ns = self.node_seq();
            assert forall|a: u128, b: u128, c: u128, d: u128| !#[trigger] forbidden_pattern(
                edges,
                a,
                b,
                c,
                d,
            ) by {
                if forbidden_pattern(edges, a, b, c, d) {
                    lemma_reachable_within(self.nodes(), edges, a, b);
                    lemma_reachable_within(self.nodes(), edges, c, d);
                    assert(ns.contains(a) && ns.contains(b) && ns.contains(c) && ns.contains(d));
                    let ia = choose|i: int| 0 <= i < ns.len() && ns[i] == a;
                    let ib = choose|i: int| 0 <= i < ns.len() && ns[i] == b;
                    let ic = choose|i: int| 0 <= i < ns.len() && ns[i] == c;
                    let id = choose|i: int| 0 <= i < ns.len() && ns[i] == d;
                    assert(parallel_at(self, ia, ib, ic, id));
                }
            }
        }
        true
    }
}

} // verus!
