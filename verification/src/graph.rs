//! The precedence graph: an immutable directed acyclic graph over task
//! identifiers, with its adjacency and transitive-closure queries.

use vstd::prelude::*;
use crate::closure::{empty_matrix, mirrors_closure, mirrors_edges, set_entry, transitive_closure};
use crate::counting::square;
use crate::nodeset::{ascending, find, lemma_ascending_distinct, sorted_set};
use crate::relation::{
    acyclic, edges_within, lemma_reachable_mono, lemma_reachable_within, predecessor_set, reachable,
    successor_set, valid_graph,
};

verus! {

/// Why a pair of nodes and edges is no precedence graph.
#[derive(Clone, Copy, Debug, PartialEq, Eq, Structural)]
pub enum GraphError {
    /// An edge leads from `node` to itself.
    SelfLoop { node: u128 },
    /// The edge from `from` to `to` names a task that is not a node.
    DanglingEdge { from: u128, to: u128 },
    /// `node` lies on a cycle: it would have to finish before itself.
    CycleDetected { node: u128 },
}

/// An end of the edge is no node.
pub open spec fn dangling(nodes: Set<u128>, e: (u128, u128)) -> bool {
    !nodes.contains(e.0) || !nodes.contains(e.1)
}

/// `edges[i]` is dangling and no edge listed before it is.
pub open spec fn first_dangling(nodes: Set<u128>, edges: Seq<(u128, u128)>, i: int) -> bool {
    &&& 0 <= i < edges.len()
    &&& dangling(nodes, edges[i])
    &&& forall|j: int| 0 <= j < i ==> !dangling(nodes, #[trigger] edges[j])
}

/// No listed edge is dangling.
pub open spec fn none_dangling(nodes: Set<u128>, edges: Seq<(u128, u128)>) -> bool {
    forall|j: int| 0 <= j < edges.len() ==> !dangling(nodes, #[trigger] edges[j])
}

/// `edges[i]` is a self-loop and no edge listed before it is.
pub open spec fn first_loop(edges: Seq<(u128, u128)>, i: int) -> bool {
    &&& 0 <= i < edges.len()
    &&& edges[i].0 == edges[i].1
    &&& forall|j: int| 0 <= j < i ==> (#[trigger] edges[j]).0 != edges[j].1
}

/// No listed edge is a self-loop.
pub open spec fn none_loops(edges: Seq<(u128, u128)>) -> bool {
    forall|j: int| 0 <= j < edges.len() ==> (#[trigger] edges[j]).0 != edges[j].1
}

/// The edges that join two different tasks.
pub open spec fn proper(edges: Set<(u128, u128)>) -> Set<(u128, u128)> {
    Set::new(|e: (u128, u128)| edges.contains(e) && e.0 != e.1)
}

/// What each error says of the input it was raised for. A dangling edge is
/// reported before anything else, the first in the order given. If there is
/// none, a cycle through two or more nodes is reported by its least node. If
/// there is none either, the first self-loop in the order given is reported.
pub open spec fn explains(nodes: Set<u128>, edges: Seq<(u128, u128)>, e: GraphError) -> bool {
    match e {
        GraphError::DanglingEdge { from, to } => exists|i: int|
            first_dangling(nodes, edges, i) && #[trigger] edges[i] == (from, to),
        GraphError::CycleDetected { node } => {
            &&& none_dangling(nodes, edges)
            &&& reachable(proper(edges.to_set()), node, node)
            &&& forall|m: u128| m < node ==> !#[trigger] reachable(proper(edges.to_set()), m, m)
        },
        GraphError::SelfLoop { node } => {
            &&& none_dangling(nodes, edges)
            &&& acyclic(proper(edges.to_set()))
            &&& exists|i: int| first_loop(edges, i) && #[trigger] edges[i] == (node, node)
        },
    }
}

/// A list of edges lies within the nodes, as a set, exactly if none of them
/// is dangling and none a self-loop.
pub proof fn lemma_usable_is_within(nodes: Set<u128>, edges: Seq<(u128, u128)>)
    ensures
        (none_dangling(nodes, edges) && none_loops(edges)) <==> edges_within(nodes, edges.to_set()),
{
    if none_dangling(nodes, edges) && none_loops(edges) {
        assert forall|a: u128, b: u128| #[trigger] edges.to_set().contains((a, b)) implies (
        nodes.contains(a) && nodes.contains(b) && a != b) by {
            let i = choose|i: int| 0 <= i < edges.len() && edges[i] == (a, b);
            assert(!dangling(nodes, edges[i]));
            assert(edges[i].0 != edges[i].1);
        }
    }
    if edges_within(nodes, edges.to_set()) {
        assert forall|j: int| 0 <= j < edges.len() implies !dangling(nodes, #[trigger] edges[j])
            && edges[j].0 != edges[j].1 by {
            assert(edges.to_set().contains((edges[j].0, edges[j].1)));
        }
    }
}

/// Where some edges have a cycle through two or more nodes, all edges have a
/// cycle.
pub proof fn lemma_proper_cycle(edges: Set<(u128, u128)>)
    requires
        !acyclic(proper(edges)),
    ensures
        !acyclic(edges),
{
    let a = choose|a: u128| reachable(proper(edges), a, a);
    lemma_reachable_mono(proper(edges), edges, a, a);
}

/// An immutable precedence graph. It can only be made by [`PrecedenceGraph::new`],
/// which admits valid graphs alone.
pub struct PrecedenceGraph {
    nodes: Vec<u128>,
    adj: Vec<Vec<bool>>,
    reach: Vec<Vec<bool>>,
    edges: Ghost<Set<(u128, u128)>>,
}

impl PrecedenceGraph {
    /// The nodes in ascending order.
    pub closed spec fn node_seq(&self) -> Seq<u128> {
        self.nodes@
    }

    /// The set of nodes.
    pub open spec fn nodes(&self) -> Set<u128> {
        self.node_seq().to_set()
    }

    /// The set of edges, each a pair of predecessor and successor.
    pub closed spec fn edges(&self) -> Set<(u128, u128)> {
        self.edges@
    }

    /// The stored matrices agree with the nodes and edges.
    pub closed spec fn rep_ok(&self) -> bool {
        &&& square(self.adj@, self.nodes@.len())
        &&& square(self.reach@, self.nodes@.len())
        &&& mirrors_edges(self.nodes@, self.edges@, self.adj@)
        &&& mirrors_closure(self.nodes@, self.edges@, self.reach@)
    }

    /// The invariant of the type: a valid graph, its nodes held in ascending
    /// order.
    pub open spec fn wf(&self) -> bool {
        &&& self.rep_ok()
        &&& ascending(self.node_seq())
        &&& valid_graph(self.nodes(), self.edges())
    }

    /// Builds the graph on `nodes` and `edges`, both read as sets, or says
    /// what is wrong with them.
    pub fn new(nodes: Vec<u128>, edges: Vec<(u128, u128)>) -> (r: Result<PrecedenceGraph, GraphError>)
        ensures
            r is Ok <==> valid_graph(nodes@.to_set(), edges@.to_set()),
            r matches Ok(g) ==> g.wf() && g.nodes() == nodes@.to_set() && g.edges()
                == edges@.to_set(),
            r matches Err(e) ==> explains(nodes@.to_set(), edges@, e),
            edges_within(nodes@.to_set(), edges@.to_set()) && !acyclic(edges@.to_set()) ==> r is Err
                && r->Err_0 is CycleDetected,
            none_dangling(nodes@.to_set(), edges@) && !acyclic(proper(edges@.to_set())) ==> r is Err
                && r->Err_0 is CycleDetected,
    {
        let sorted = sorted_set(&nodes);
        let n = sorted.len();
        let ghost ns = sorted@;
        let ghost node_set = nodes@.to_set();
        let ghost edge_set = edges@.to_set();
        let ghost joined = proper(edge_set);
        proof {
            lemma_ascending_distinct(ns);
            vstd::seq_lib::seq_to_set_is_finite(nodes@);
        }
        let mut adj = empty_matrix(n);
        let mut looped: Option<u128> = None;
        let ghost mut at: int = 0;
        let mut k: usize = 0;
        while k < edges.len()
            invariant
                k <= edges@.len(),
                n == ns.len(),
                ns == sorted@,
                ascending(ns),
                ns.no_duplicates(),
                ns.to_set() == node_set,
                node_set == nodes@.to_set(),
                edge_set == edges@.to_set(),
                square(adj@, n as nat),
                forall|j: int| 0 <= j < k ==> !dangling(node_set, #[trigger] edges@[j]),
                looped is None ==> forall|j: int| 0 <= j < k ==> (#[trigger] edges@[j]).0
                    != edges@[j].1,
                looped matches Some(x) ==> 0 <= at < k && first_loop(edges@, at) && edges@[at] == (
                    x,
                    x,
                ),
                forall|i: int, j: int|
                    0 <= i < n && 0 <= j < n ==> #[trigger] adj@[i]@[j] == (i != j && edges@.take(
                        k as int,
                    ).contains((ns[i], ns[j]))),
            decreases edges@.len() - k,
        {
            let (a, b) = edges[k];
            let ia = find(&sorted, a);
            let ib = find(&sorted, b);
            if ia.is_none() || ib.is_none() {
                proof {
                    assert(ns.contains(a) <==> node_set.contains(a));
                    assert(ns.contains(b) <==> node_set.contains(b));
                    assert(first_dangling(node_set, edges@, k as int));
                    assert(edges@[k as int] == (a, b));
                    lemma_usable_is_within(node_set, edges@);
                }
                return Err(GraphError::DanglingEdge { from: a, to: b });
            }
            let ia = ia.unwrap();
            let ib = ib.unwrap();
            let ghost before = adj@;
            let ghost t0 = edges@.take(k as int);
            let ghost t1 = edges@.take(k as int + 1);
            proof {
                assert(t1 =~= t0.push((a, b)));
                assert(node_set.contains(a) && node_set.contains(b)) by {
                    assert(ns[ia as int] == a && ns[ib as int] == b);
                }
            }
            if a == b {
                if looped.is_none() {
                    looped = Some(a);
                    proof {
                        at = k as int;
                    }
                }
            } else {
                set_entry(&mut adj, ia, ib);
            }
            proof {
                assert forall|i: int, j: int| 0 <= i < n && 0 <= j < n implies #[trigger] adj@[i]@[j]
                    == (i != j && t1.contains((ns[i], ns[j]))) by {
                    let pair = (ns[i], ns[j]);
                    assert(before[i]@[j] == (i != j && t0.contains(pair)));
                    if a != b && i == ia && j == ib {
                        assert(t1[k as int] == pair);
                    } else {
                        assert(adj@[i]@[j] == before[i]@[j]);
                        if i != j {
                            assert(pair != (a, b));
                            if t0.contains(pair) {
                                let e = choose|e: int| 0 <= e < t0.len() && t0[e] == pair;
                                assert(t1[e] == pair);
                            }
                            if t1.contains(pair) {
                                let e = choose|e: int| 0 <= e < t1.len() && t1[e] == pair;
                                assert(t0[e] == pair);
                            }
                        }
                    }
                }
            }
            k = k + 1;
        }
        proof {
            assert(edges@.take(k as int) =~= edges@);
            assert(none_dangling(node_set, edges@));
            assert forall|a: u128, b: u128| #[trigger] joined.contains((a, b)) implies ns.contains(a)
                && ns.contains(b) && node_set.contains(a) && node_set.contains(b) && a != b by {
                let e = choose|e: int| 0 <= e < edges@.len() && edges@[e] == (a, b);
                assert(!dangling(node_set, edges@[e]));
            }
            assert forall|i: int, j: int| 0 <= i < n && 0 <= j < n implies #[trigger] adj@[i]@[j]
                == joined.contains((ns[i], ns[j])) by {
                if i != j {
                    assert(ns[i] != ns[j]);
                }
            }
            lemma_usable_is_within(node_set, edges@);
        }
        let reach = transitive_closure(&adj, Ghost(ns), Ghost(joined));
        let mut i: usize = 0;
        while i < n
            invariant
                i <= n,
                n == ns.len(),
                ns == sorted@,
                ascending(ns),
                ns.to_set() == node_set,
                node_set == nodes@.to_set(),
                edge_set == edges@.to_set(),
                joined == proper(edge_set),
                none_dangling(node_set, edges@),
                edges_within(node_set, joined),
                square(reach@, n as nat),
                mirrors_closure(ns, joined, reach@),
                forall|j: int| 0 <= j < i ==> !reachable(joined, #[trigger] ns[j], ns[j]),
            decreases n - i,
        {
            if reach[i][i] {
                proof {
                    let node = ns[i as int];
                    assert(reach@[i as int]@[i as int]);
                    assert forall|m: u128| m < node implies !#[trigger] reachable(joined, m, m) by {
                        if reachable(joined, m, m) {
                            lemma_reachable_within(node_set, joined, m, m);
                            assert(ns.contains(m));
                            let j = choose|j: int| 0 <= j < ns.len() && ns[j] == m;
                            if j > i {
                                assert(ns[i as int] < ns[j]);
                            }
                        }
                    }
                    lemma_reachable_mono(joined, edge_set, node, node);
                }
                return Err(GraphError::CycleDetected { node: sorted[i] });
            }
            assert(!reach@[i as int]@[i as int]);
            i = i + 1;
        }
        proof {
            assert forall|a: u128| !#[trigger] reachable(joined, a, a) by {
                if reachable(joined, a, a) {
                    lemma_reachable_within(node_set, joined, a, a);
                    assert(ns.contains(a));
                    let j = choose|j: int| 0 <= j < ns.len() && ns[j] == a;
                    assert(!reachable(joined, ns[j], ns[j]));
                }
            }
            lemma_usable_is_within(node_set, edges@);
        }
        match looped {
            Some(node) => {
                proof {
                    assert(edge_set.contains((node, node)));
                }
                Err(GraphError::SelfLoop { node })
            },
            None => {
                proof {
                    assert(none_loops(edges@));
                    assert(joined =~= edge_set);
                }
                Ok(PrecedenceGraph { nodes: sorted, adj, reach, edges: Ghost(edge_set) })
            },
        }
    }

    /// The number of nodes.
    pub fn len(&self) -> (n: usize)
        requires
            self.wf(),
        ensures
            n == self.node_seq().len(),
            n == self.nodes().len(),
    {
        proof {
            lemma_ascending_distinct(self.node_seq());
            self.node_seq().unique_seq_to_set();
        }
        self.nodes.len()
    }

    /// The node at position `i` of the ascending order.
    pub fn node(&self, i: usize) -> (id: u128)
        requires
            self.wf(),
            i < self.node_seq().len(),
        ensures
            id == self.node_seq()[i as int],
            self.nodes().contains(id),
    {
        self.nodes[i]
    }

    /// The position of `id` in the ascending order, if it is a node.
    pub fn index_of(&self, id: u128) -> (r: Option<usize>)
        requires
            self.wf(),
        ensures
            match r {
                Some(i) => i < self.node_seq().len() && self.node_seq()[i as int] == id,
                None => !self.nodes().contains(id),
            },
    {
        find(&self.nodes, id)
    }

    /// Whether `id` is a node of the graph.
    pub fn contains(&self, id: u128) -> (r: bool)
        requires
            self.wf(),
        ensures
            r == self.nodes().contains(id),
    {
        let r = find(&self.nodes, id);
        proof {
            if r is Some {
                assert(self.node_seq()[r->Some_0 as int] == id);
            }
        }
        r.is_some()
    }

    /// Whether an edge leads from the node at position `i` to the one at
    /// position `j`.
    pub fn has_edge_at(&self, i: usize, j: usize) -> (r: bool)
        requires
            self.wf(),
            i < self.node_seq().len(),
            j < self.node_seq().len(),
        ensures
            r == self.edges().contains((self.node_seq()[i as int], self.node_seq()[j as int])),
    {
        assert(self.adj@[i as int]@[j as int] == self.edges@.contains(
            (self.nodes@[i as int], self.nodes@[j as int]),
        ));
        self.adj[i][j]
    }

    /// Whether the node at position `i` must finish before the one at
    /// position `j`.
    pub fn precedes_at(&self, i: usize, j: usize) -> (r: bool)
        requires
            self.wf(),
            i < self.node_seq().len(),
            j < self.node_seq().len(),
        ensures
            r == reachable(self.edges(), self.node_seq()[i as int], self.node_seq()[j as int]),
    {
        assert(self.reach@[i as int]@[j as int] == reachable(
            self.edges@,
            self.nodes@[i as int],
            self.nodes@[j as int],
        ));
        self.reach[i][j]
    }

    /// All nodes, in ascending order.
    pub fn all_nodes(&self) -> (r: Vec<u128>)
        requires
            self.wf(),
        ensures
            r@ == self.node_seq(),
            ascending(r@),
            r@.to_set() == self.nodes(),
    {
        let mut r: Vec<u128> = Vec::new();
        let mut i: usize = 0;
        while i < self.nodes.len()
            invariant
                i <= self.nodes@.len(),
                r@ == self.nodes@.take(i as int),
            decreases self.nodes@.len() - i,
        {
            r.push(self.nodes[i]);
            assert(self.nodes@.take(i as int + 1) =~= self.nodes@.take(i as int).push(
                self.nodes@[i as int],
            ));
            i = i + 1;
        }
        assert(self.nodes@.take(i as int) =~= self.nodes@);
        r
    }

    /// The immediate successors of `id`, in ascending order. A task that is
    /// no node has none.
    pub fn successors(&self, id: u128) -> (r: Vec<u128>)
        requires
            self.wf(),
        ensures
            ascending(r@),
            r@.to_set() == successor_set(self.edges(), id),
    {
        let mut r: Vec<u128> = Vec::new();
        match find(&self.nodes, id) {
            None => {
                proof {
                    assert forall|b: u128| !successor_set(self.edges(), id).contains(b) by {
                        if self.edges().contains((id, b)) {
                            assert(self.nodes().contains(id));
                        }
                    }
                    assert(r@.to_set() =~= successor_set(self.edges(), id));
                }
            },
            Some(i) => {
                let n = self.nodes.len();
                let mut j: usize = 0;
                while j < n
                    invariant
                        self.wf(),
                        n == self.nodes@.len(),
                        i < n,
                        j <= n,
                        self.nodes@[i as int] == id,
                        ascending(r@),
                        forall|k: int| 0 <= k < r@.len() ==> exists|l: int|
                            0 <= l < j && #[trigger] r@[k] == self.nodes@[l],
                        forall|b: u128|
                            r@.contains(b) <==> exists|l: int|
                                0 <= l < j && #[trigger] self.nodes@[l] == b && self.edges@.contains(
                                    (id, b),
                                ),
                    decreases n - j,
                {
                    let ghost before = r@;
                    let hit = self.adj[i][j];
                    assert(hit == self.edges@.contains((id, self.nodes@[j as int]))) by {
                        assert(self.adj@[i as int]@[j as int] == self.edges@.contains(
                            (self.nodes@[i as int], self.nodes@[j as int]),
                        ));
                    }
                    if hit {
                        r.push(self.nodes[j]);
                        proof {
                            let x = self.nodes@[j as int];
                            assert forall|a: int, b: int| 0 <= a < b < r@.len() implies r@[a]
                                < r@[b] by {
                                if b == r@.len() - 1 {
                                    let l = choose|l: int| 0 <= l < j && before[a] == self.nodes@[l];
                                    assert(self.nodes@[l] < self.nodes@[j as int]);
                                } else {
                                    assert(before[a] < before[b]);
                                }
                            }
                            assert forall|k: int| 0 <= k < r@.len() implies exists|l: int|
                                0 <= l < j + 1 && #[trigger] r@[k] == self.nodes@[l] by {
                                if k < before.len() {
                                    let l = choose|l: int| 0 <= l < j && before[k] == self.nodes@[l];
                                    assert(r@[k] == self.nodes@[l]);
                                } else {
                                    assert(r@[k] == self.nodes@[j as int]);
                                }
                            }
                            assert(r@[r@.len() - 1] == x);
                        }
                    }
                    proof {
                        assert forall|b: u128|
                            r@.contains(b) <==> exists|l: int|
                                0 <= l < j + 1 && #[trigger] self.nodes@[l] == b
                                    && self.edges@.contains((id, b)) by {
                            if r@.contains(b) {
                                let k = choose|k: int| 0 <= k < r@.len() && r@[k] == b;
                                if k < before.len() {
                                    assert(before.contains(b));
                                } else {
                                    assert(self.nodes@[j as int] == b);
                                }
                            }
                            if exists|l: int|
                                0 <= l < j + 1 && #[trigger] self.nodes@[l] == b
                                    && self.edges@.contains((id, b)) {
                                let l = choose|l: int|
                                    0 <= l < j + 1 && #[trigger] self.nodes@[l] == b
                                        && self.edges@.contains((id, b));
                                if l < j {
                                    assert(before.contains(b));
                                    let k = choose|k: int| 0 <= k < before.len() && before[k] == b;
                                    assert(r@[k] == b);
                                } else {
                                    assert(r@[r@.len() - 1] == b);
                                }
                            }
                        }
                    }
                    j = j + 1;
                }
                proof {
                    assert forall|b: u128|
                        r@.to_set().contains(b) <==> successor_set(self.edges(), id).contains(
                            b,
                        ) by {
                        if self.edges().contains((id, b)) {
                            assert(self.nodes().contains(b));
                            let l = choose|l: int| 0 <= l < n && self.nodes@[l] == b;
                            assert(self.nodes@[l] == b && self.edges@.contains((id, b)));
                        }
                    }
                    assert(r@.to_set() =~= successor_set(self.edges(), id));
                }
            },
        }
        r
    }

    /// The immediate predecessors of `id`, in ascending order. A task that
    /// is no node has none.
    pub fn predecessors(&self, id: u128) -> (r: Vec<u128>)
        requires
            self.wf(),
        ensures
            ascending(r@),
            r@.to_set() == predecessor_set(self.edges(), id),
    {
        let mut r: Vec<u128> = Vec::new();
        match find(&self.nodes, id) {
            None => {
                proof {
                    assert forall|b: u128| !predecessor_set(self.edges(), id).contains(b) by {
                        if self.edges().contains((b, id)) {
                            assert(self.nodes().contains(id));
                        }
                    }
                    assert(r@.to_set() =~= predecessor_set(self.edges(), id));
                }
            },
            Some(i) => {
                let n = self.nodes.len();
                let mut j: usize = 0;
                while j < n
                    invariant
                        self.wf(),
                        n == self.nodes@.len(),
                        i < n,
                        j <= n,
                        self.nodes@[i as int] == id,
                        ascending(r@),
                        forall|k: int| 0 <= k < r@.len() ==> exists|l: int|
                            0 <= l < j && #[trigger] r@[k] == self.nodes@[l],
                        forall|b: u128|
                            r@.contains(b) <==> exists|l: int|
                                0 <= l < j && #[trigger] self.nodes@[l] == b && self.edges@.contains(
                                    (b, id),
                                ),
                    decreases n - j,
                {
                    let ghost before = r@;
                    let hit = self.adj[j][i];
                    assert(hit == self.edges@.contains((self.nodes@[j as int], id))) by {
                        assert(self.adj@[j as int]@[i as int] == self.edges@.contains(
                            (self.nodes@[j as int], self.nodes@[i as int]),
                        ));
                    }
                    if hit {
                        r.push(self.nodes[j]);
                        proof {
                            let x = self.nodes@[j as int];
                            assert forall|a: int, b: int| 0 <= a < b < r@.len() implies r@[a]
                                < r@[b] by {
                                if b == r@.len() - 1 {
                                    let l = choose|l: int| 0 <= l < j && before[a] == self.nodes@[l];
                                    assert(self.nodes@[l] < self.nodes@[j as int]);
                                } else {
                                    assert(before[a] < before[b]);
                                }
                            }
                            assert forall|k: int| 0 <= k < r@.len() implies exists|l: int|
                                0 <= l < j + 1 && #[trigger] r@[k] == self.nodes@[l] by {
                                if k < before.len() {
                                    let l = choose|l: int| 0 <= l < j && before[k] == self.nodes@[l];
                                    assert(r@[k] == self.nodes@[l]);
                                } else {
                                    assert(r@[k] == self.nodes@[j as int]);
                                }
                            }
                            assert(r@[r@.len() - 1] == x);
                        }
                    }
                    proof {
                        assert forall|b: u128|
                            r@.contains(b) <==> exists|l: int|
                                0 <= l < j + 1 && #[trigger] self.nodes@[l] == b
                                    && self.edges@.contains((b, id)) by {
                            if r@.contains(b) {
                                let k = choose|k: int| 0 <= k < r@.len() && r@[k] == b;
                                if k < before.len() {
                                    assert(before.contains(b));
                                } else {
                                    assert(self.nodes@[j as int] == b);
                                }
                            }
                            if exists|l: int|
                                0 <= l < j + 1 && #[trigger] self.nodes@[l] == b
                                    && self.edges@.contains((b, id)) {
                                let l = choose|l: int|
                                    0 <= l < j + 1 && #[trigger] self.nodes@[l] == b
                                        && self.edges@.contains((b, id));
                                if l < j {
                                    assert(before.contains(b));
                                    let k = choose|k: int| 0 <= k < before.len() && before[k] == b;
                                    assert(r@[k] == b);
                                } else {
                                    assert(r@[r@.len() - 1] == b);
                                }
                            }
                        }
                    }
                    j = j + 1;
                }
                proof {
                    assert forall|b: u128|
                        r@.to_set().contains(b) <==> predecessor_set(self.edges(), id).contains(
                            b,
                        ) by {
                        if self.edges().contains((b, id)) {
                            assert(self.nodes().contains(b));
                            let l = choose|l: int| 0 <= l < n && self.nodes@[l] == b;
                            assert(self.nodes@[l] == b && self.edges@.contains((b, id)));
                        }
                    }
                    assert(r@.to_set() =~= predecessor_set(self.edges(), id));
                }
            },
        }
        r
    }

    /// Whether `a` must finish before `b`: whether the pair lies in the
    /// transitive closure of the edges.
    pub fn is_ordered_before(&self, a: u128, b: u128) -> (r: bool)
        requires
            self.wf(),
        ensures
            r == reachable(self.edges(), a, b),
    {
        let ia = find(&self.nodes, a);
        let ib = find(&self.nodes, b);
        proof {
            if reachable(self.edges(), a, b) {
                lemma_reachable_within(self.nodes(), self.edges(), a, b);
            }
        }
        match (ia, ib) {
            (Some(i), Some(j)) => {
                assert(self.reach@[i as int]@[j as int] == reachable(
                    self.edges@,
                    self.nodes@[i as int],
                    self.nodes@[j as int],
                ));
                self.reach[i][j]
            },
            _ => false,
        }
    }
}

} // verus!
