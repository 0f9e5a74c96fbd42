//! The mathematical model of precedence: paths through an edge set, the
//! "must finish before" relation they induce, and what makes a pair of a node
//! set and an edge set a valid precedence graph.

use vstd::prelude::*;

verus! {

/// `p[i]` is joined to `p[i + 1]` by an edge.
pub open spec fn links(edges: Set<(u128, u128)>, p: Seq<u128>, i: int) -> bool {
    edges.contains((p[i], p[i + 1]))
}

/// `p` walks along edges: at least one step, every step an edge.
pub open spec fn is_path(edges: Set<(u128, u128)>, p: Seq<u128>) -> bool {
    &&& p.len() >= 2
    &&& forall|i: int| 0 <= i < p.len() - 1 ==> #[trigger] links(edges, p, i)
}

/// `p` is a path that starts at `a` and ends at `b`.
pub open spec fn joins(edges: Set<(u128, u128)>, p: Seq<u128>, a: u128, b: u128) -> bool {
    &&& is_path(edges, p)
    &&& p[0] == a
    &&& p[p.len() - 1] == b
}

/// `a` must finish before `b`: the pair lies in the transitive closure of the
/// edge set.
pub open spec fn reachable(edges: Set<(u128, u128)>, a: u128, b: u128) -> bool {
    exists|p: Seq<u128>| #[trigger] joins(edges, p, a, b)
}

/// No task must finish before itself.
pub open spec fn acyclic(edges: Set<(u128, u128)>) -> bool {
    forall|a: u128| !#[trigger] reachable(edges, a, a)
}

/// Neither task must finish before the other.
pub open spec fn incomparable(edges: Set<(u128, u128)>, a: u128, b: u128) -> bool {
    !reachable(edges, a, b) && !reachable(edges, b, a)
}

/// Every edge joins two distinct members of `nodes`.
pub open spec fn edges_within(nodes: Set<u128>, edges: Set<(u128, u128)>) -> bool {
    forall|a: u128, b: u128| #[trigger]
        edges.contains((a, b)) ==> nodes.contains(a) && nodes.contains(b) && a != b
}

/// The invariant of a precedence graph: finitely many nodes, every edge
/// between two distinct nodes of the graph, and no cycle.
pub open spec fn valid_graph(nodes: Set<u128>, edges: Set<(u128, u128)>) -> bool {
    &&& nodes.finite()
    &&& edges_within(nodes, edges)
    &&& acyclic(edges)
}

/// The tasks that `a` must finish before.
pub open spec fn descendants(edges: Set<(u128, u128)>, a: u128) -> Set<u128> {
    Set::new(|b: u128| reachable(edges, a, b))
}

/// The tasks that must finish before `b`.
pub open spec fn ancestors(edges: Set<(u128, u128)>, b: u128) -> Set<u128> {
    Set::new(|a: u128| reachable(edges, a, b))
}

/// The immediate successors of `a`.
pub open spec fn successor_set(edges: Set<(u128, u128)>, a: u128) -> Set<u128> {
    Set::new(|b: u128| edges.contains((a, b)))
}

/// The immediate predecessors of `b`.
pub open spec fn predecessor_set(edges: Set<(u128, u128)>, b: u128) -> Set<u128> {
    Set::new(|a: u128| edges.contains((a, b)))
}

/// An edge is a path of one step.
pub proof fn lemma_edge_reachable(edges: Set<(u128, u128)>, a: u128, b: u128)
    requires
        edges.contains((a, b)),
    ensures
        reachable(edges, a, b),
{
    let p = seq![a, b];
    assert(links(edges, p, 0));
    assert(joins(edges, p, a, b));
}

/// Precedence is transitive.
pub proof fn lemma_reachable_trans(edges: Set<(u128, u128)>, a: u128, b: u128, c: u128)
    requires
        reachable(edges, a, b),
        reachable(edges, b, c),
    ensures
        reachable(edges, a, c),
{
    let p = choose|p: Seq<u128>| joins(edges, p, a, b);
    let q = choose|q: Seq<u128>| joins(edges, q, b, c);
    let r = p + q.drop_first();
    assert forall|i: int| 0 <= i < r.len() - 1 implies #[trigger] links(edges, r, i) by {
        if i < p.len() - 1 {
            assert(links(edges, p, i));
        } else {
            let k = i - (p.len() - 1);
            assert(links(edges, q, k));
        }
    }
    assert(joins(edges, r, a, c));
}

/// What is ordered by some edges is ordered by more edges.
pub proof fn lemma_reachable_mono(
    small: Set<(u128, u128)>,
    big: Set<(u128, u128)>,
    a: u128,
    b: u128,
)
    requires
        small.subset_of(big),
        reachable(small, a, b),
    ensures
        reachable(big, a, b),
{
    let p = choose|p: Seq<u128>| joins(small, p, a, b);
    assert forall|i: int| 0 <= i < p.len() - 1 implies #[trigger] links(big, p, i) by {
        assert(links(small, p, i));
    }
    assert(joins(big, p, a, b));
}

/// A relation that holds of every edge, and that extends along edges, holds
/// of the two ends of every path.
pub proof fn lemma_path_induction(
    edges: Set<(u128, u128)>,
    holds: spec_fn(u128, u128) -> bool,
    p: Seq<u128>,
)
    requires
        is_path(edges, p),
        forall|a: u128, b: u128| edges.contains((a, b)) ==> #[trigger] holds(a, b),
        forall|a: u128, c: u128, b: u128|
            #[trigger] holds(a, c) && #[trigger] edges.contains((c, b)) ==> holds(a, b),
    ensures
        holds(p[0], p[p.len() - 1]),
    decreases p.len(),
{
    assert(links(edges, p, p.len() - 2));
    if p.len() > 2 {
        let q = p.drop_last();
        assert forall|i: int| 0 <= i < q.len() - 1 implies #[trigger] links(edges, q, i) by {
            assert(links(edges, p, i));
        }
        lemma_path_induction(edges, holds, q);
        assert(holds(p[0], p[p.len() - 2]));
    }
}

/// Both ends of a precedence pair are nodes of the graph.
pub proof fn lemma_reachable_within(
    nodes: Set<u128>,
    edges: Set<(u128, u128)>,
    a: u128,
    b: u128,
)
    requires
        edges_within(nodes, edges),
        reachable(edges, a, b),
    ensures
        nodes.contains(a),
        nodes.contains(b),
        a != b || !acyclic(edges),
{
    let p = choose|p: Seq<u128>| joins(edges, p, a, b);
    assert(links(edges, p, 0));
    assert(links(edges, p, p.len() - 2));
}

/// The descendants of a node form a finite set of nodes; so do its ancestors.
pub proof fn lemma_closure_sets_finite(nodes: Set<u128>, edges: Set<(u128, u128)>, a: u128)
    requires
        valid_graph(nodes, edges),
    ensures
        descendants(edges, a).finite(),
        descendants(edges, a).subset_of(nodes),
        ancestors(edges, a).finite(),
        ancestors(edges, a).subset_of(nodes),
{
    assert forall|b: u128| descendants(edges, a).contains(b) implies nodes.contains(b) by {
        lemma_reachable_within(nodes, edges, a, b);
    }
    assert forall|b: u128| ancestors(edges, a).contains(b) implies nodes.contains(b) by {
        lemma_reachable_within(nodes, edges, b, a);
    }
    vstd::set_lib::lemma_len_subset(descendants(edges, a), nodes);
    vstd::set_lib::lemma_len_subset(ancestors(edges, a), nodes);
}

/// Going down a precedence pair strictly shrinks the set of descendants, and
/// going up strictly shrinks the set of ancestors. Both counts are therefore
/// ranks that every edge respects.
pub proof fn lemma_rank_strict(nodes: Set<u128>, edges: Set<(u128, u128)>, a: u128, b: u128)
    requires
        valid_graph(nodes, edges),
        reachable(edges, a, b),
    ensures
        descendants(edges, b).len() < descendants(edges, a).len(),
        ancestors(edges, a).len() < ancestors(edges, b).len(),
{
    lemma_closure_sets_finite(nodes, edges, a);
    lemma_closure_sets_finite(nodes, edges, b);
    let da = descendants(edges, a);
    let db = descendants(edges, b);
    assert forall|x: u128| db.contains(x) implies da.remove(b).contains(x) by {
        lemma_reachable_trans(edges, a, b, x);
        assert(!reachable(edges, b, b));
    }
    assert(da.contains(b));
    vstd::set_lib::lemma_len_subset(db, da.remove(b));
    let ua = ancestors(edges, a);
    let ub = ancestors(edges, b);
    assert forall|x: u128| ua.contains(x) implies ub.remove(a).contains(x) by {
        lemma_reachable_trans(edges, x, a, b);
        assert(!reachable(edges, a, a));
    }
    assert(ub.contains(a));
    vstd::set_lib::lemma_len_subset(ua, ub.remove(a));
}

/// Among any nodes of a valid graph, starting from one of them, there is one
/// none of whose immediate successors is among them.
pub proof fn lemma_sink_among(
    nodes: Set<u128>,
    edges: Set<(u128, u128)>,
    rest: Set<u128>,
    x: u128,
) -> (m: u128)
    requires
        valid_graph(nodes, edges),
        rest.contains(x),
    ensures
        rest.contains(m),
        forall|s: u128| #[trigger] edges.contains((m, s)) ==> !rest.contains(s),
    decreases descendants(edges, x).len(),
{
    if exists|s: u128| #[trigger] edges.contains((x, s)) && rest.contains(s) {
        let s = choose|s: u128| #[trigger] edges.contains((x, s)) && rest.contains(s);
        lemma_edge_reachable(edges, x, s);
        lemma_rank_strict(nodes, edges, x, s);
        lemma_sink_among(nodes, edges, rest, s)
    } else {
        x
    }
}

/// Among any nodes of a valid graph, starting from one of them, there is one
/// none of whose immediate predecessors is among them.
pub proof fn lemma_source_among(
    nodes: Set<u128>,
    edges: Set<(u128, u128)>,
    rest: Set<u128>,
    x: u128,
) -> (m: u128)
    requires
        valid_graph(nodes, edges),
        rest.contains(x),
    ensures
        rest.contains(m),
        forall|p: u128| #[trigger] edges.contains((p, m)) ==> !rest.contains(p),
    decreases ancestors(edges, x).len(),
{
    if exists|p: u128| #[trigger] edges.contains((p, x)) && rest.contains(p) {
        let p = choose|p: u128| #[trigger] edges.contains((p, x)) && rest.contains(p);
        lemma_edge_reachable(edges, p, x);
        lemma_rank_strict(nodes, edges, p, x);
        lemma_source_among(nodes, edges, rest, p)
    } else {
        x
    }
}

} // verus!
