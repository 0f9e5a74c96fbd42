//! The Most-Successors-First priority list: nodes ranked by the number of
//! their successors, the most first, equal counts by ascending identifier.

use vstd::prelude::*;
use crate::counting::{count_true, lemma_count_full, lemma_count_set, lemma_marked_count, marked_set};
use crate::graph::PrecedenceGraph;
use crate::nodeset::lemma_ascending_distinct;
use crate::relation::{descendants, lemma_reachable_within, reachable, successor_set};

verus! {

/// Which successors Most-Successors-First counts.
#[derive(Clone, Copy, Debug, PartialEq, Eq, Structural)]
pub enum SuccessorCount {
    /// The immediate successors of a node. This is the default.
    Immediate,
    /// Every node that a node must finish before.
    Transitive,
}

/// `a` counts `b` among its successors.
pub open spec fn counts(edges: Set<(u128, u128)>, mode: SuccessorCount, a: u128, b: u128) -> bool {
    match mode {
        SuccessorCount::Immediate => edges.contains((a, b)),
        SuccessorCount::Transitive => reachable(edges, a, b),
    }
}

/// The successors that are counted for `a`.
pub open spec fn counted_set(edges: Set<(u128, u128)>, mode: SuccessorCount, a: u128) -> Set<u128> {
    match mode {
        SuccessorCount::Immediate => successor_set(edges, a),
        SuccessorCount::Transitive => descendants(edges, a),
    }
}

/// The priority key of `a`: the number of its counted successors.
pub open spec fn msf_key(edges: Set<(u128, u128)>, mode: SuccessorCount, a: u128) -> nat {
    counted_set(edges, mode, a).len()
}

/// `a` ranks before `b`: it has more successors, or as many and the smaller
/// identifier.
pub open spec fn msf_before(edges: Set<(u128, u128)>, mode: SuccessorCount, a: u128, b: u128) -> bool {
    msf_key(edges, mode, a) > msf_key(edges, mode, b) || (msf_key(edges, mode, a) == msf_key(
        edges,
        mode,
        b,
    ) && a < b)
}

/// `list` holds every node exactly once.
pub open spec fn is_priority_list(nodes: Set<u128>, list: Seq<u128>) -> bool {
    list.no_duplicates() && list.to_set() == nodes
}

/// `list` is the Most-Successors-First priority list of the graph: every
/// node once, each ranking before all that follow it.
pub open spec fn is_msf_list(
    nodes: Set<u128>,
    edges: Set<(u128, u128)>,
    mode: SuccessorCount,
    list: Seq<u128>,
) -> bool {
    &&& is_priority_list(nodes, list)
    &&& forall|i: int, j: int|
        0 <= i < j < list.len() ==> msf_before(edges, mode, #[trigger] list[i], #[trigger] list[j])
}

/// The row of marks of the node at position `i`: which positions it counts.
pub open spec fn count_row(g: &PrecedenceGraph, mode: SuccessorCount, i: int) -> Seq<bool> {
    Seq::new(
        g.node_seq().len(),
        |j: int| counts(g.edges(), mode, g.node_seq()[i], g.node_seq()[j]),
    )
}

/// The marks in a node's row are as many as its counted successors.
pub proof fn lemma_row_counts_key(g: &PrecedenceGraph, mode: SuccessorCount, i: int)
    requires
        g.wf(),
        0 <= i < g.node_seq().len(),
    ensures
        count_true(count_row(g, mode, i)) == msf_key(g.edges(), mode, g.node_seq()[i]),
{
    let ns = g.node_seq();
    let row = count_row(g, mode, i);
    let n = ns.len() as int;
    lemma_ascending_distinct(ns);
    lemma_marked_count(ns, row, n);
    assert(row.take(n) =~= row);
    let a = ns[i];
    let target = counted_set(g.edges(), mode, a);
    assert forall|x: u128| marked_set(ns, row, n).contains(x) <==> target.contains(x) by {
        if target.contains(x) {
            match mode {
                SuccessorCount::Immediate => {
                    assert(g.edges().contains((a, x)));
                },
                SuccessorCount::Transitive => {
                    lemma_reachable_within(g.nodes(), g.edges(), a, x);
                },
            }
            assert(ns.contains(x));
            let j = choose|j: int| 0 <= j < ns.len() && ns[j] == x;
            assert(row[j]);
        }
    }
    assert(marked_set(ns, row, n) =~= target);
}

/// Two lists that both meet the definition are the same list: the ranking
/// leaves no choice.
pub proof fn law_msf_list_unique(
    nodes: Set<u128>,
    edges: Set<(u128, u128)>,
    mode: SuccessorCount,
    a: Seq<u128>,
    b: Seq<u128>,
)
    requires
        is_msf_list(nodes, edges, mode, a),
        is_msf_list(nodes, edges, mode, b),
    ensures
        a == b,
    decreases a.len(),
{
    a.unique_seq_to_set();
    b.unique_seq_to_set();
    if a.len() > 0 {
        let x = a[0];
        let y = b[0];
        assert(a.to_set().contains(x));
        assert(b.to_set().contains(y));
        assert(b.contains(x));
        assert(a.contains(y));
        let i = choose|i: int| 0 <= i < b.len() && b[i] == x;
        let j = choose|j: int| 0 <= j < a.len() && a[j] == y;
        assert(x == y) by {
            if i > 0 && j > 0 {
                assert(msf_before(edges, mode, b[0], b[i]));
                assert(msf_before(edges, mode, a[0], a[j]));
            }
        }
        let a1 = a.drop_first();
        let b1 = b.drop_first();
        let rest = nodes.remove(x);
        assert forall|z: u128| a1.to_set().contains(z) <==> rest.contains(z) by {
            if a1.contains(z) {
                let k = choose|k: int| 0 <= k < a1.len() && a1[k] == z;
                assert(a[k + 1] == z);
                assert(a.to_set().contains(z));
            }
            if rest.contains(z) {
                assert(a.to_set().contains(z));
                let k = choose|k: int| 0 <= k < a.len() && a[k] == z;
                assert(a1[k - 1] == z);
            }
        }
        assert forall|z: u128| b1.to_set().contains(z) <==> rest.contains(z) by {
            if b1.contains(z) {
                let k = choose|k: int| 0 <= k < b1.len() && b1[k] == z;
                assert(b[k + 1] == z);
                assert(b.to_set().contains(z));
            }
            if rest.contains(z) {
                assert(b.to_set().contains(z));
                let k = choose|k: int| 0 <= k < b.len() && b[k] == z;
                assert(b1[k - 1] == z);
            }
        }
        assert(a1.to_set() =~= rest);
        assert(b1.to_set() =~= rest);
        assert forall|p: int, q: int| 0 <= p < q < a1.len() implies msf_before(
            edges,
            mode,
            #[trigger] a1[p],
            #[trigger] a1[q],
        ) by {
            assert(msf_before(edges, mode, a[p + 1], a[q + 1]));
        }
        assert forall|p: int, q: int| 0 <= p < q < b1.len() implies msf_before(
            edges,
            mode,
            #[trigger] b1[p],
            #[trigger] b1[q],
        ) by {
            assert(msf_before(edges, mode, b[p + 1], b[q + 1]));
        }
        law_msf_list_unique(rest, edges, mode, a1, b1);
        assert(a =~= seq![x] + a1);
        assert(b =~= seq![y] + b1);
    } else {
        assert(a =~= b);
    }
}

impl PrecedenceGraph {
    /// The number of successors counted for each node, by position.
    pub fn successor_counts(&self, mode: SuccessorCount) -> (keys: Vec<usize>)
        requires
            self.wf(),
        ensures
            keys@.len() == self.node_seq().len(),
            forall|i: int|
                0 <= i < keys@.len() ==> #[trigger] keys@[i] as nat == msf_key(
                    self.edges(),
                    mode,
                    self.node_seq()[i],
                ),
    {
        let n = self.len();
        let mut keys: Vec<usize> = Vec::new();
        let mut i: usize = 0;
        while i < n
            invariant
                self.wf(),
                n == self.node_seq().len(),
                i <= n,
                keys@.len() == i,
                forall|k: int|
                    0 <= k < i ==> #[trigger] keys@[k] as nat == msf_key(
                        self.edges(),
                        mode,
                        self.node_seq()[k],
                    ),
            decreases n - i,
        {
            let ghost row = count_row(self, mode, i as int);
            let mut count: usize = 0;
            let mut j: usize = 0;
            while j < n
                invariant
                    self.wf(),
                    n == self.node_seq().len(),
                    i < n,
                    j <= n,
                    row == count_row(self, mode, i as int),
                    count as nat == count_true(row.take(j as int)),
                    count <= j,
                decreases n - j,
            {
                let hit = match mode {
                    SuccessorCount::Immediate => self.has_edge_at(i, j),
                    SuccessorCount::Transitive => self.precedes_at(i, j),
                };
                proof {
                    assert(row.take(j as int + 1).drop_last() =~= row.take(j as int));
                    assert(row.take(j as int + 1).last() == row[j as int]);
                    assert(hit == row[j as int]);
                }
                if hit {
                    count = count + 1;
                }
                j = j + 1;
            }
            proof {
                assert(row.take(n as int) =~= row);
                lemma_row_counts_key(self, mode, i as int);
            }
            keys.push(count);
            i = i + 1;
        }
        keys
    }

    /// The Most-Successors-First priority list, highest priority first,
    /// counting successors as `mode` says.
    pub fn msf_list_by(&self, mode: SuccessorCount) -> (list: Vec<u128>)
        requires
            self.wf(),
        ensures
            is_msf_list(self.nodes(), self.edges(), mode, list@),
    {
        let n = self.len();
        let keys = self.successor_counts(mode);
        let ghost ns = self.node_seq();
        let ghost edges = self.edges();
        let mut taken: Vec<bool> = Vec::new();
        let mut t: usize = 0;
        while t < n
            invariant
                t <= n,
                taken@.len() == t,
                forall|i: int| 0 <= i < t ==> !#[trigger] taken@[i],
                count_true(taken@) == 0,
            decreases n - t,
        {
            let ghost before = taken@;
            taken.push(false);
            assert(taken@.drop_last() =~= before);
            t = t + 1;
        }
        let mut list: Vec<u128> = Vec::new();
        let mut round: usize = 0;
        proof {
            lemma_ascending_distinct(ns);
        }
        while round < n
            invariant
                self.wf(),
                ns == self.node_seq(),
                edges == self.edges(),
                ns.no_duplicates(),
                n == ns.len(),
                round <= n,
                keys@.len() == n,
                forall|i: int|
                    0 <= i < n ==> #[trigger] keys@[i] as nat == msf_key(edges, mode, ns[i]),
                taken@.len() == n,
                list@.len() == round,
                count_true(taken@) == round,
                forall|i: int| 0 <= i < n ==> (#[trigger] taken@[i] <==> list@.contains(ns[i])),
                forall|k: int| 0 <= k < list@.len() ==> ns.contains(#[trigger] list@[k]),
                list@.no_duplicates(),
                forall|a: int, b: int|
                    0 <= a < b < list@.len() ==> msf_before(
                        edges,
                        mode,
                        #[trigger] list@[a],
                        #[trigger] list@[b],
                    ),
                forall|a: int, i: int|
                    0 <= a < list@.len() && 0 <= i < n && !taken@[i] ==> msf_before(
                        edges,
                        mode,
                        #[trigger] list@[a],
                        #[trigger] ns[i],
                    ),
            decreases n - round,
        {
            let mut best: usize = n;
            let mut i: usize = 0;
            while i < n
                invariant
                    self.wf(),
                    ns == self.node_seq(),
                    n == ns.len(),
                    i <= n,
                    keys@.len() == n,
                    taken@.len() == n,
                    forall|k: int|
                        0 <= k < n ==> #[trigger] keys@[k] as nat == msf_key(edges, mode, ns[k]),
                    best <= n,
                    best < n ==> best < i && !taken@[best as int],
                    best == n ==> forall|k: int| 0 <= k < i ==> #[trigger] taken@[k],
                    best < n ==> forall|k: int|
                        0 <= k < i && !taken@[k] && k != best ==> msf_before(
                            edges,
                            mode,
                            ns[best as int],
                            #[trigger] ns[k],
                        ),
                decreases n - i,
            {
                if !taken[i] {
                    if best == n {
                        best = i;
                    } else if keys[i] > keys[best] {
                        proof {
                            let old_best = best as int;
                            assert forall|k: int|
                                0 <= k < i + 1 && !taken@[k] && k != i implies msf_before(
                                edges,
                                mode,
                                ns[i as int],
                                #[trigger] ns[k],
                            ) by {
                                assert(keys@[i as int] as nat == msf_key(edges, mode, ns[i as int]));
                                assert(keys@[old_best] as nat == msf_key(edges, mode, ns[old_best]));
                                if k != old_best {
                                    assert(msf_before(edges, mode, ns[old_best], ns[k]));
                                }
                            }
                        }
                        best = i;
                    } else {
                        proof {
                            assert(keys@[i as int] as nat == msf_key(edges, mode, ns[i as int]));
                            assert(keys@[best as int] as nat == msf_key(
                                edges,
                                mode,
                                ns[best as int],
                            ));
                            assert(ns[best as int] < ns[i as int]);
                        }
                    }
                }
                i = i + 1;
            }
            proof {
                if best == n {
                    lemma_count_full(taken@);
                }
            }
            let ghost before_list = list@;
            let ghost before_taken = taken@;
            let id = self.node(best);
            list.push(id);
            taken.set(best, true);
            proof {
                lemma_count_set(before_taken, best as int);
                assert(taken@ =~= before_taken.update(best as int, true));
                assert(!before_list.contains(id));
                assert forall|i: int| 0 <= i < n implies (#[trigger] taken@[i] <==> list@.contains(
                    ns[i],
                )) by {
                    if i == best {
                        assert(list@[round as int] == ns[i]);
                    } else {
                        if before_list.contains(ns[i]) {
                            let k = choose|k: int| 0 <= k < before_list.len() && before_list[k] == ns[i];
                            assert(list@[k] == ns[i]);
                        }
                        if list@.contains(ns[i]) {
                            let k = choose|k: int| 0 <= k < list@.len() && list@[k] == ns[i];
                            assert(k < round);
                            assert(before_list[k] == ns[i]);
                        }
                    }
                }
                assert forall|a: int, b: int| 0 <= a < b < list@.len() implies msf_before(
                    edges,
                    mode,
                    #[trigger] list@[a],
                    #[trigger] list@[b],
                ) by {
                    if b == round {
                        assert(msf_before(edges, mode, before_list[a], ns[best as int]));
                    } else {
                        assert(msf_before(edges, mode, before_list[a], before_list[b]));
                    }
                }
                assert forall|a: int, i: int|
                    0 <= a < list@.len() && 0 <= i < n && !taken@[i] implies msf_before(
                    edges,
                    mode,
                    #[trigger] list@[a],
                    #[trigger] ns[i],
                ) by {
                    if a == round {
                        assert(msf_before(edges, mode, ns[best as int], ns[i]));
                    } else {
                        assert(msf_before(edges, mode, before_list[a], ns[i]));
                    }
                }
                assert forall|a: int, b: int|
                    0 <= a < list@.len() && 0 <= b < list@.len() && a != b implies list@[a]
                    != list@[b] by {
                    if a < round && b < round {
                        assert(before_list[a] != before_list[b]);
                    } else if a == round {
                        assert(before_list[b] == list@[b]);
                    } else {
                        assert(before_list[a] == list@[a]);
                    }
                }
            }
            round = round + 1;
        }
        proof {
            lemma_count_full(taken@);
            assert forall|x: u128| list@.to_set().contains(x) <==> self.nodes().contains(x) by {
                if self.nodes().contains(x) {
                    let i = choose|i: int| 0 <= i < ns.len() && ns[i] == x;
                    assert(taken@[i]);
                }
                if list@.contains(x) {
                    let k = choose|k: int| 0 <= k < list@.len() && list@[k] == x;
                    assert(ns.contains(list@[k]));
                }
            }
            assert(list@.to_set() =~= self.nodes());
        }
        list
    }

    /// The Most-Successors-First priority list, highest priority first,
    /// counting immediate successors.
    pub fn msf_list(&self) -> (list: Vec<u128>)
        requires
            self.wf(),
        ensures
            is_msf_list(self.nodes(), self.edges(), SuccessorCount::Immediate, list@),
    {
        self.msf_list_by(SuccessorCount::Immediate)
    }
}

} // verus!
