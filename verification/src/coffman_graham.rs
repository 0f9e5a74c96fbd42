//! The Coffman–Graham priority list. Nodes are labelled 1, 2, … from the
//! sinks upward: each label goes to the node, among those whose successors
//! are all labelled, whose successors' labels in descending order form the
//! lexicographically smallest sequence. The list runs from the highest label
//! to the lowest.

use vstd::prelude::*;
use crate::counting::{count_true, lemma_count_full, lemma_count_set};
use crate::graph::PrecedenceGraph;
use crate::msf::is_priority_list;
use crate::nodeset::lemma_ascending_distinct;
use crate::relation::lemma_sink_among;

verus! {

/// The labels, in descending order, of those successors of `v` that are
/// among the first `k` nodes of `order`. The node `order[j]` has the label
/// `j + 1`.
pub open spec fn desc_labels(edges: Set<(u128, u128)>, order: Seq<u128>, v: u128, k: nat) -> Seq<nat>
    decreases k,
{
    if k == 0 {
        Seq::empty()
    } else if edges.contains((v, order[k - 1])) {
        seq![k] + desc_labels(edges, order, v, (k - 1) as nat)
    } else {
        desc_labels(edges, order, v, (k - 1) as nat)
    }
}

/// `a` comes before `b` in the lexicographic order: at the first place where
/// they differ `a` has the smaller entry, or `a` ends there and `b` does not.
pub open spec fn lex_less(a: Seq<nat>, b: Seq<nat>) -> bool
    decreases a.len(),
{
    if b.len() == 0 {
        false
    } else if a.len() == 0 {
        true
    } else if a[0] != b[0] {
        a[0] < b[0]
    } else {
        lex_less(a.drop_first(), b.drop_first())
    }
}

/// After the first `k` nodes of `order` were labelled, `v` can take the next
/// label: it has none yet and all its successors have one.
pub open spec fn cg_eligible(edges: Set<(u128, u128)>, order: Seq<u128>, k: int, v: u128) -> bool {
    &&& !order.take(k).contains(v)
    &&& forall|s: u128| #[trigger] edges.contains((v, s)) ==> order.take(k).contains(s)
}

/// After the first `k` nodes of `order` were labelled, `a` is to be labelled
/// before `b`: its successors' labels form the smaller sequence, or the same
/// sequence and it has the smaller identifier.
pub open spec fn cg_before(edges: Set<(u128, u128)>, order: Seq<u128>, k: nat, a: u128, b: u128) -> bool {
    let ka = desc_labels(edges, order, a, k);
    let kb = desc_labels(edges, order, b, k);
    lex_less(ka, kb) || (ka == kb && a < b)
}

/// The node at place `k` of `order` is the one that takes the label `k + 1`:
/// it is eligible, and it is before every other eligible node.
pub open spec fn is_cg_choice(
    nodes: Set<u128>,
    edges: Set<(u128, u128)>,
    order: Seq<u128>,
    k: int,
) -> bool {
    &&& cg_eligible(edges, order, k, order[k])
    &&& forall|m: u128|
        nodes.contains(m) && #[trigger] cg_eligible(edges, order, k, m) && m != order[k]
            ==> cg_before(edges, order, k as nat, order[k], m)
}

/// `order` lists the nodes in the order in which they are labelled.
pub open spec fn is_cg_labeling(nodes: Set<u128>, edges: Set<(u128, u128)>, order: Seq<u128>) -> bool {
    &&& is_priority_list(nodes, order)
    &&& forall|k: int| 0 <= k < order.len() ==> #[trigger] is_cg_choice(nodes, edges, order, k)
}

/// `list` is the Coffman–Graham priority list: the nodes by descending label.
pub open spec fn is_cg_list(nodes: Set<u128>, edges: Set<(u128, u128)>, list: Seq<u128>) -> bool {
    is_cg_labeling(nodes, edges, list.reverse())
}

/// Every label in the sequence lies between 1 and `k`.
pub proof fn lemma_labels_bound(edges: Set<(u128, u128)>, order: Seq<u128>, v: u128, k: nat)
    ensures
        forall|t: int|
            0 <= t < desc_labels(edges, order, v, k).len() ==> 1 <= #[trigger] desc_labels(
                edges,
                order,
                v,
                k,
            )[t] <= k,
    decreases k,
{
    if k > 0 {
        lemma_labels_bound(edges, order, v, (k - 1) as nat);
        let now = desc_labels(edges, order, v, k);
        let rest = desc_labels(edges, order, v, (k - 1) as nat);
        assert forall|t: int| 0 <= t < now.len() implies 1 <= #[trigger] now[t] <= k by {
            if edges.contains((v, order[k - 1])) {
                if t > 0 {
                    assert(now[t] == rest[t - 1]);
                }
            } else {
                assert(now[t] == rest[t]);
            }
        }
    }
}

/// The labels of the successors among the first `k` nodes depend on those
/// `k` nodes only.
pub proof fn lemma_labels_prefix(
    edges: Set<(u128, u128)>,
    o1: Seq<u128>,
    o2: Seq<u128>,
    v: u128,
    k: nat,
)
    requires
        k <= o1.len(),
        k <= o2.len(),
        o1.take(k as int) == o2.take(k as int),
    ensures
        desc_labels(edges, o1, v, k) == desc_labels(edges, o2, v, k),
    decreases k,
{
    if k > 0 {
        let j = (k - 1) as nat;
        assert(o1.take(k as int)[k - 1] == o1[k - 1]);
        assert(o2.take(k as int)[k - 1] == o2[k - 1]);
        assert(o1[k - 1] == o2[k - 1]);
        assert(o1.take(k as int).take(j as int) =~= o1.take(j as int));
        assert(o2.take(k as int).take(j as int) =~= o2.take(j as int));
        assert(o1.take(j as int) == o2.take(j as int));
        lemma_labels_prefix(edges, o1, o2, v, j);
    }
}

/// Of two sequences at most one comes before the other.
pub proof fn lemma_lex_asym(a: Seq<nat>, b: Seq<nat>)
    requires
        lex_less(a, b),
    ensures
        !lex_less(b, a),
    decreases a.len(),
{
    if a.len() > 0 && a[0] == b[0] {
        lemma_lex_asym(a.drop_first(), b.drop_first());
    }
}

/// The lexicographic order is transitive.
pub proof fn lemma_lex_trans(a: Seq<nat>, b: Seq<nat>, c: Seq<nat>)
    requires
        lex_less(a, b),
        lex_less(b, c),
    ensures
        lex_less(a, c),
    decreases a.len(),
{
    if a.len() > 0 && a[0] == b[0] && b[0] == c[0] {
        lemma_lex_trans(a.drop_first(), b.drop_first(), c.drop_first());
    }
}

/// Two sequences neither of which comes before the other are the same.
pub proof fn lemma_lex_total(a: Seq<nat>, b: Seq<nat>)
    requires
        !lex_less(a, b),
        !lex_less(b, a),
    ensures
        a == b,
    decreases a.len(),
{
    if a.len() > 0 {
        lemma_lex_total(a.drop_first(), b.drop_first());
        assert(a =~= seq![a[0]] + a.drop_first());
        assert(b =~= seq![b[0]] + b.drop_first());
    } else {
        assert(a =~= b);
    }
}

/// Being labelled before is transitive.
pub proof fn lemma_cg_before_trans(
    edges: Set<(u128, u128)>,
    order: Seq<u128>,
    k: nat,
    a: u128,
    b: u128,
    c: u128,
)
    requires
        cg_before(edges, order, k, a, b),
        cg_before(edges, order, k, b, c),
    ensures
        cg_before(edges, order, k, a, c),
{
    let ka = desc_labels(edges, order, a, k);
    let kb = desc_labels(edges, order, b, k);
    let kc = desc_labels(edges, order, c, k);
    if lex_less(ka, kb) && lex_less(kb, kc) {
        lemma_lex_trans(ka, kb, kc);
    }
}

/// Of two different nodes one is labelled before the other, never both.
pub proof fn lemma_cg_before_asym(
    edges: Set<(u128, u128)>,
    order: Seq<u128>,
    k: nat,
    a: u128,
    b: u128,
)
    requires
        cg_before(edges, order, k, a, b),
    ensures
        !cg_before(edges, order, k, b, a),
{
    let ka = desc_labels(edges, order, a, k);
    let kb = desc_labels(edges, order, b, k);
    if lex_less(ka, kb) {
        lemma_lex_asym(ka, kb);
    }
    if lex_less(kb, ka) {
        lemma_lex_asym(kb, ka);
    }
}

/// Whether `k` is the right choice at its place depends on the first `k + 1`
/// nodes of the order only.
pub proof fn lemma_choice_prefix(
    nodes: Set<u128>,
    edges: Set<(u128, u128)>,
    o1: Seq<u128>,
    o2: Seq<u128>,
    k: int,
)
    requires
        0 <= k < o1.len(),
        k < o2.len(),
        o1.take(k + 1) == o2.take(k + 1),
        is_cg_choice(nodes, edges, o1, k),
    ensures
        is_cg_choice(nodes, edges, o2, k),
{
    assert(o1.take(k + 1)[k] == o1[k]);
    assert(o2.take(k + 1)[k] == o2[k]);
    assert(o1[k] == o2[k]);
    assert(o1.take(k + 1).take(k) =~= o1.take(k));
    assert(o2.take(k + 1).take(k) =~= o2.take(k));
    assert(o1.take(k) == o2.take(k));
    assert(cg_eligible(edges, o2, k, o2[k]));
    assert forall|m: u128|
        nodes.contains(m) && #[trigger] cg_eligible(edges, o2, k, m) && m != o2[k] implies cg_before(
        edges,
        o2,
        k as nat,
        o2[k],
        m,
    ) by {
        assert(cg_eligible(edges, o1, k, m));
        assert(cg_before(edges, o1, k as nat, o1[k], m));
        lemma_labels_prefix(edges, o1, o2, m, k as nat);
        lemma_labels_prefix(edges, o1, o2, o1[k], k as nat);
    }
}

/// Two labelings of one graph agree on their first `k` nodes.
proof fn lemma_cg_agree(
    nodes: Set<u128>,
    edges: Set<(u128, u128)>,
    o1: Seq<u128>,
    o2: Seq<u128>,
    k: int,
)
    requires
        is_cg_labeling(nodes, edges, o1),
        is_cg_labeling(nodes, edges, o2),
        o1.len() == o2.len(),
        0 <= k <= o1.len(),
    ensures
        o1.take(k) == o2.take(k),
    decreases k,
{
    if k == 0 {
        assert(o1.take(0) =~= o2.take(0));
    } else {
        let j = k - 1;
        lemma_cg_agree(nodes, edges, o1, o2, j);
        let c1 = o1[j];
        let c2 = o2[j];
        assert(is_cg_choice(nodes, edges, o1, j));
        assert(is_cg_choice(nodes, edges, o2, j));
        if c1 != c2 {
            assert(o1.to_set().contains(c1));
            assert(o2.to_set().contains(c2));
            assert(cg_eligible(edges, o1, j, c2));
            assert(cg_eligible(edges, o2, j, c1));
            assert(cg_before(edges, o1, j as nat, c1, c2));
            assert(cg_before(edges, o2, j as nat, c2, c1));
            lemma_labels_prefix(edges, o1, o2, c1, j as nat);
            lemma_labels_prefix(edges, o1, o2, c2, j as nat);
            lemma_cg_before_asym(edges, o1, j as nat, c1, c2);
        }
        assert(o1.take(k) =~= o1.take(j).push(c1));
        assert(o2.take(k) =~= o2.take(j).push(c2));
    }
}

/// The labeling of a graph is unique: every choice is forced.
pub proof fn law_cg_labeling_unique(
    nodes: Set<u128>,
    edges: Set<(u128, u128)>,
    o1: Seq<u128>,
    o2: Seq<u128>,
)
    requires
        is_cg_labeling(nodes, edges, o1),
        is_cg_labeling(nodes, edges, o2),
    ensures
        o1 == o2,
{
    o1.unique_seq_to_set();
    o2.unique_seq_to_set();
    lemma_cg_agree(nodes, edges, o1, o2, o1.len() as int);
    assert(o1.take(o1.len() as int) =~= o1);
    assert(o2.take(o2.len() as int) =~= o2);
}

/// Two lists that both meet the definition are the same list.
pub proof fn law_cg_list_unique(
    nodes: Set<u128>,
    edges: Set<(u128, u128)>,
    a: Seq<u128>,
    b: Seq<u128>,
)
    requires
        is_cg_list(nodes, edges, a),
        is_cg_list(nodes, edges, b),
    ensures
        a == b,
{
    law_cg_labeling_unique(nodes, edges, a.reverse(), b.reverse());
    assert(a =~= a.reverse().reverse());
    assert(b =~= b.reverse().reverse());
}

/// A Coffman–Graham list holds every node exactly once.
pub proof fn lemma_cg_list_is_priority_list(nodes: Set<u128>, edges: Set<(u128, u128)>, list: Seq<u128>)
    requires
        is_cg_list(nodes, edges, list),
    ensures
        is_priority_list(nodes, list),
{
    let order = list.reverse();
    assert(list =~= order.reverse());
    assert forall|i: int, j: int| 0 <= i < list.len() && 0 <= j < list.len() && i != j implies list[i]
        != list[j] by {
        assert(order[list.len() - 1 - i] != order[list.len() - 1 - j]);
    }
    assert forall|x: u128| list.to_set().contains(x) <==> nodes.contains(x) by {
        if list.contains(x) {
            let i = choose|i: int| 0 <= i < list.len() && list[i] == x;
            assert(order[list.len() - 1 - i] == x);
            assert(order.to_set().contains(x));
        }
        if nodes.contains(x) {
            assert(order.to_set().contains(x));
            let i = choose|i: int| 0 <= i < order.len() && order[i] == x;
            assert(list[list.len() - 1 - i] == x);
        }
    }
    assert(list.to_set() =~= nodes);
}

/// `places` lists the positions of the nodes of `order`.
pub open spec fn places_of(g: &PrecedenceGraph, places: Seq<usize>, order: Seq<u128>) -> bool {
    &&& places.len() == order.len()
    &&& forall|t: int|
        0 <= t < places.len() ==> (#[trigger] places[t]) < g.node_seq().len() && order[t]
            == g.node_seq()[places[t] as int]
}

/// `labeled` marks the positions of the nodes of `order`.
pub open spec fn marks_of(g: &PrecedenceGraph, labeled: Seq<bool>, order: Seq<u128>) -> bool {
    &&& labeled.len() == g.node_seq().len()
    &&& forall|i: int|
        0 <= i < labeled.len() ==> (#[trigger] labeled[i] <==> order.contains(g.node_seq()[i]))
}

impl PrecedenceGraph {
    /// Whether the labels of the successors of the node at position `i` come
    /// before those of the node at position `b` in the lexicographic order.
    fn labels_less(&self, places: &Vec<usize>, i: usize, b: usize, Ghost(order): Ghost<Seq<u128>>) -> (r: bool)
        requires
            self.wf(),
            i < self.node_seq().len(),
            b < self.node_seq().len(),
            places_of(self, places@, order),
        ensures
            r == lex_less(
                desc_labels(self.edges(), order, self.node_seq()[i as int], order.len()),
                desc_labels(self.edges(), order, self.node_seq()[b as int], order.len()),
            ),
    {
        let ghost edges = self.edges();
        let ghost x = self.node_seq()[i as int];
        let ghost y = self.node_seq()[b as int];
        let k = places.len();
        let mut l: usize = k;
        while l > 0
            invariant
                self.wf(),
                i < self.node_seq().len(),
                b < self.node_seq().len(),
                places_of(self, places@, order),
                edges == self.edges(),
                x == self.node_seq()[i as int],
                y == self.node_seq()[b as int],
                k == places@.len(),
                l <= k,
                lex_less(
                    desc_labels(edges, order, x, order.len()),
                    desc_labels(edges, order, y, order.len()),
                ) == lex_less(desc_labels(edges, order, x, l as nat), desc_labels(edges, order, y, l as nat)),
            decreases l,
        {
            let v = places[l - 1];
            let from_i = self.has_edge_at(i, v);
            let from_b = self.has_edge_at(b, v);
            proof {
                let a_now = desc_labels(edges, order, x, l as nat);
                let b_now = desc_labels(edges, order, y, l as nat);
                let a_next = desc_labels(edges, order, x, (l - 1) as nat);
                let b_next = desc_labels(edges, order, y, (l - 1) as nat);
                assert(order[l - 1] == self.node_seq()[v as int]);
                lemma_labels_bound(edges, order, x, (l - 1) as nat);
                lemma_labels_bound(edges, order, y, (l - 1) as nat);
                if from_i && from_b {
                    assert(a_now.drop_first() =~= a_next);
                    assert(b_now.drop_first() =~= b_next);
                } else if from_i && !from_b {
                    assert(a_now[0] == l);
                    if b_now.len() > 0 {
                        assert(b_now[0] <= l - 1);
                    }
                    assert(!lex_less(a_now, b_now));
                } else if !from_i && from_b {
                    assert(b_now[0] == l);
                    if a_now.len() > 0 {
                        assert(a_now[0] <= l - 1);
                    }
                    assert(lex_less(a_now, b_now));
                }
            }
            if from_i != from_b {
                return from_b;
            }
            l = l - 1;
        }
        false
    }

    /// Whether the node at position `i` can take the next label.
    fn can_label(&self, labeled: &Vec<bool>, i: usize, Ghost(order): Ghost<Seq<u128>>) -> (r: bool)
        requires
            self.wf(),
            i < self.node_seq().len(),
            marks_of(self, labeled@, order),
        ensures
            r == cg_eligible(self.edges(), order, order.len() as int, self.node_seq()[i as int]),
    {
        let ghost ns = self.node_seq();
        let ghost edges = self.edges();
        let n = self.len();
        proof {
            assert(order.take(order.len() as int) =~= order);
        }
        if labeled[i] {
            return false;
        }
        let mut j: usize = 0;
        while j < n
            invariant
                self.wf(),
                ns == self.node_seq(),
                edges == self.edges(),
                n == ns.len(),
                i < n,
                j <= n,
                marks_of(self, labeled@, order),
                forall|c: int| 0 <= c < j && #[trigger] edges.contains((ns[i as int], ns[c])) ==> labeled@[c],
            decreases n - j,
        {
            if self.has_edge_at(i, j) && !labeled[j] {
                proof {
                    assert(edges.contains((ns[i as int], ns[j as int])));
                    assert(!order.contains(ns[j as int]));
                }
                return false;
            }
            j = j + 1;
        }
        proof {
            assert forall|s: u128| #[trigger] edges.contains((ns[i as int], s)) implies order.contains(
                s,
            ) by {
                assert(self.nodes().contains(s));
                let c = choose|c: int| 0 <= c < ns.len() && ns[c] == s;
                assert(edges.contains((ns[i as int], ns[c])));
                assert(labeled@[c]);
            }
        }
        true
    }

    /// The nodes in the order in which Coffman–Graham labels them, the label
    /// 1 first.
    pub fn cg_labeling(&self) -> (order: Vec<u128>)
        requires
            self.wf(),
        ensures
            is_cg_labeling(self.nodes(), self.edges(), order@),
    {
        let n = self.len();
        let ghost ns = self.node_seq();
        let ghost edges = self.edges();
        let ghost nodes = self.nodes();
        let mut labeled: Vec<bool> = Vec::new();
        let mut t: usize = 0;
        while t < n
            invariant
                t <= n,
                labeled@.len() == t,
                forall|i: int| 0 <= i < t ==> !#[trigger] labeled@[i],
                count_true(labeled@) == 0,
            decreases n - t,
        {
            let ghost before = labeled@;
            labeled.push(false);
            assert(labeled@.drop_last() =~= before);
            t = t + 1;
        }
        let mut places: Vec<usize> = Vec::new();
        let mut order: Vec<u128> = Vec::new();
        proof {
            lemma_ascending_distinct(ns);
        }
        let mut k: usize = 0;
        while k < n
            invariant
                self.wf(),
                ns == self.node_seq(),
                edges == self.edges(),
                nodes == self.nodes(),
                ns.no_duplicates(),
                n == ns.len(),
                k <= n,
                order@.len() == k,
                places_of(self, places@, order@),
                marks_of(self, labeled@, order@),
                count_true(labeled@) == k,
                order@.no_duplicates(),
                forall|t: int| 0 <= t < k ==> #[trigger] is_cg_choice(nodes, edges, order@, t),
            decreases n - k,
        {
            let mut best: usize = n;
            let mut i: usize = 0;
            while i < n
                invariant
                    self.wf(),
                    ns == self.node_seq(),
                    edges == self.edges(),
                    n == ns.len(),
                    i <= n,
                    order@.len() == k,
                    places_of(self, places@, order@),
                    marks_of(self, labeled@, order@),
                    best <= n,
                    best < n ==> best < i && cg_eligible(edges, order@, k as int, ns[best as int]),
                    best == n ==> forall|c: int|
                        0 <= c < i ==> !cg_eligible(edges, order@, k as int, #[trigger] ns[c]),
                    best < n ==> forall|c: int|
                        0 <= c < i && c != best && cg_eligible(edges, order@, k as int, #[trigger] ns[c])
                            ==> cg_before(edges, order@, k as nat, ns[best as int], ns[c]),
                decreases n - i,
            {
                if self.can_label(&labeled, i, Ghost(order@)) {
                    if best == n {
                        best = i;
                    } else if self.labels_less(&places, i, best, Ghost(order@)) {
                        proof {
                            let old_best = best as int;
                            assert(cg_before(edges, order@, k as nat, ns[i as int], ns[old_best]));
                            assert forall|c: int|
                                0 <= c < i + 1 && c != i && cg_eligible(
                                    edges,
                                    order@,
                                    k as int,
                                    #[trigger] ns[c],
                                ) implies cg_before(edges, order@, k as nat, ns[i as int], ns[c]) by {
                                if c != old_best {
                                    lemma_cg_before_trans(
                                        edges,
                                        order@,
                                        k as nat,
                                        ns[i as int],
                                        ns[old_best],
                                        ns[c],
                                    );
                                }
                            }
                        }
                        best = i;
                    } else {
                        proof {
                            let ki = desc_labels(edges, order@, ns[i as int], k as nat);
                            let kb = desc_labels(edges, order@, ns[best as int], k as nat);
                            if !lex_less(kb, ki) {
                                lemma_lex_total(kb, ki);
                            }
                            assert(ns[best as int] < ns[i as int]);
                        }
                    }
                }
                i = i + 1;
            }
            proof {
                if best == n {
                    lemma_count_full(labeled@);
                    let u = choose|u: int| 0 <= u < n && !labeled@[u];
                    let rest = Set::new(|x: u128| nodes.contains(x) && !order@.contains(x));
                    assert(rest.contains(ns[u]));
                    let m = lemma_sink_among(nodes, edges, rest, ns[u]);
                    let c = choose|c: int| 0 <= c < ns.len() && ns[c] == m;
                    assert(order@.take(k as int) =~= order@);
                    assert forall|s: u128| #[trigger] edges.contains((m, s)) implies order@.contains(
                        s,
                    ) by {
                        assert(nodes.contains(s));
                        assert(!rest.contains(s));
                    }
                    assert(cg_eligible(edges, order@, k as int, ns[c]));
                }
            }
            let ghost before_order = order@;
            let ghost before_labeled = labeled@;
            let id = self.node(best);
            places.push(best);
            order.push(id);
            labeled.set(best, true);
            proof {
                let now = order@;
                assert(before_order.take(k as int) =~= before_order);
                assert(now.take(k as int) =~= before_order);
                assert(!before_order.contains(id));
                lemma_count_set(before_labeled, best as int);
                assert(labeled@ =~= before_labeled.update(best as int, true));
                assert forall|i: int| 0 <= i < n implies (#[trigger] labeled@[i] <==> now.contains(
                    ns[i],
                )) by {
                    if i == best {
                        assert(now[k as int] == ns[i]);
                    } else {
                        if before_order.contains(ns[i]) {
                            let t = choose|t: int| 0 <= t < before_order.len() && before_order[t] == ns[i];
                            assert(now[t] == ns[i]);
                        }
                        if now.contains(ns[i]) {
                            let t = choose|t: int| 0 <= t < now.len() && now[t] == ns[i];
                            assert(t < k);
                            assert(before_order[t] == ns[i]);
                        }
                    }
                }
                assert forall|a: int, b: int|
                    0 <= a < now.len() && 0 <= b < now.len() && a != b implies now[a] != now[b] by {
                    if a < k && b < k {
                        assert(before_order[a] != before_order[b]);
                    } else if a == k {
                        assert(before_order[b] == now[b]);
                    } else {
                        assert(before_order[a] == now[a]);
                    }
                }
                assert forall|t: int| 0 <= t < k + 1 implies #[trigger] is_cg_choice(
                    nodes,
                    edges,
                    now,
                    t,
                ) by {
                    if t < k {
                        assert(is_cg_choice(nodes, edges, before_order, t));
                        assert(before_order.take(t + 1) =~= now.take(t + 1));
                        lemma_choice_prefix(nodes, edges, before_order, now, t);
                    } else {
                        assert(cg_eligible(edges, before_order, k as int, id));
                        assert(cg_eligible(edges, now, k as int, now[k as int]));
                        assert forall|m: u128|
                            nodes.contains(m) && #[trigger] cg_eligible(edges, now, k as int, m) && m
                                != now[k as int] implies cg_before(
                            edges,
                            now,
                            k as nat,
                            now[k as int],
                            m,
                        ) by {
                            let c = choose|c: int| 0 <= c < ns.len() && ns[c] == m;
                            assert(cg_eligible(edges, before_order, k as int, ns[c]));
                            assert(cg_before(edges, before_order, k as nat, ns[best as int], ns[c]));
                            lemma_labels_prefix(edges, before_order, now, m, k as nat);
                            lemma_labels_prefix(edges, before_order, now, id, k as nat);
                        }
                    }
                }
            }
            k = k + 1;
        }
        proof {
            lemma_count_full(labeled@);
            assert forall|x: u128| order@.to_set().contains(x) <==> nodes.contains(x) by {
                if nodes.contains(x) {
                    let i = choose|i: int| 0 <= i < ns.len() && ns[i] == x;
                    assert(labeled@[i]);
                }
                if order@.contains(x) {
                    let t = choose|t: int| 0 <= t < order@.len() && order@[t] == x;
                    assert(order@[t] == ns[places@[t] as int]);
                }
            }
            assert(order@.to_set() =~= nodes);
        }
        order
    }

    /// The Coffman–Graham priority list, highest priority first.
    pub fn cg_list(&self) -> (list: Vec<u128>)
        requires
            self.wf(),
        ensures
            is_cg_list(self.nodes(), self.edges(), list@),
            is_priority_list(self.nodes(), list@),
    {
        let order = self.cg_labeling();
        let n = order.len();
        let mut list: Vec<u128> = Vec::new();
        let mut i: usize = 0;
        while i < n
            invariant
                n == order@.len(),
                i <= n,
                list@.len() == i,
                forall|t: int| 0 <= t < i ==> #[trigger] list@[t] == order@[n - 1 - t],
            decreases n - i,
        {
            list.push(order[n - 1 - i]);
            i = i + 1;
        }
        proof {
            assert(list@.reverse() =~= order@);
            lemma_cg_list_is_priority_list(self.nodes(), self.edges(), list@);
        }
        list
    }
}

} // verus!
