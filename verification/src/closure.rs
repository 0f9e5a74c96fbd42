//! The transitive closure of an adjacency matrix, computed by saturation:
//! pairs are added along two-step connections until a whole pass adds none.

use vstd::prelude::*;
use crate::counting::{lemma_count_set, lemma_total_bound, lemma_total_update, square, total_true};
use crate::relation::{joins, lemma_edge_reachable, lemma_path_induction, lemma_reachable_trans, reachable};

verus! {

/// The matrix holds exactly the edges between the listed nodes.
pub open spec fn mirrors_edges(ns: Seq<u128>, edges: Set<(u128, u128)>, m: Seq<Vec<bool>>) -> bool {
    forall|i: int, j: int|
        0 <= i < ns.len() && 0 <= j < ns.len() ==> #[trigger] m[i]@[j] == edges.contains(
            (ns[i], ns[j]),
        )
}

/// The matrix holds exactly the precedence pairs between the listed nodes.
pub open spec fn mirrors_closure(ns: Seq<u128>, edges: Set<(u128, u128)>, m: Seq<Vec<bool>>) -> bool {
    forall|i: int, j: int|
        0 <= i < ns.len() && 0 <= j < ns.len() ==> #[trigger] m[i]@[j] == reachable(
            edges,
            ns[i],
            ns[j],
        )
}

/// Every pair the matrix holds is a precedence pair.
pub open spec fn sound(ns: Seq<u128>, edges: Set<(u128, u128)>, m: Seq<Vec<bool>>) -> bool {
    forall|i: int, j: int|
        0 <= i < ns.len() && 0 <= j < ns.len() && #[trigger] m[i]@[j] ==> reachable(
            edges,
            ns[i],
            ns[j],
        )
}

/// Every pair of `a` is a pair of `b`.
pub open spec fn included(a: Seq<Vec<bool>>, b: Seq<Vec<bool>>, n: nat) -> bool {
    forall|i: int, j: int| 0 <= i < n && 0 <= j < n && #[trigger] a[i]@[j] ==> b[i]@[j]
}

/// The connection from `i` over `k` to `j` is closed in the matrix.
pub open spec fn closed_at(m: Seq<Vec<bool>>, i: int, k: int, j: int) -> bool {
    m[i]@[k] && m[k]@[j] ==> m[i]@[j]
}

/// Every two-step connection is closed in the matrix.
pub open spec fn transitive(m: Seq<Vec<bool>>, n: nat) -> bool {
    forall|i: int, k: int, j: int|
        0 <= i < n && 0 <= k < n && 0 <= j < n ==> #[trigger] closed_at(m, i, k, j)
}

/// An `n` by `n` matrix of `false`.
pub fn empty_matrix(n: usize) -> (m: Vec<Vec<bool>>)
    ensures
        square(m@, n as nat),
        forall|i: int, j: int| 0 <= i < n && 0 <= j < n ==> !#[trigger] m@[i]@[j],
{
    let mut m: Vec<Vec<bool>> = Vec::new();
    let mut i: usize = 0;
    while i < n
        invariant
            i <= n,
            m@.len() == i,
            forall|a: int| 0 <= a < i ==> (#[trigger] m@[a])@.len() == n,
            forall|a: int, b: int| 0 <= a < i && 0 <= b < n ==> !#[trigger] m@[a]@[b],
        decreases n - i,
    {
        let mut row: Vec<bool> = Vec::new();
        let mut j: usize = 0;
        while j < n
            invariant
                j <= n,
                row@.len() == j,
                forall|b: int| 0 <= b < j ==> !#[trigger] row@[b],
            decreases n - j,
        {
            row.push(false);
            j = j + 1;
        }
        m.push(row);
        i = i + 1;
    }
    m
}

/// Switches the entry at row `i`, column `j` to `true`.
pub fn set_entry(m: &mut Vec<Vec<bool>>, i: usize, j: usize)
    requires
        i < old(m)@.len(),
        j < old(m)@[i as int]@.len(),
    ensures
        final(m)@.len() == old(m)@.len(),
        final(m)@[i as int]@ == old(m)@[i as int]@.update(j as int, true),
        final(m)@ == old(m)@.update(i as int, final(m)@[i as int]),
{
    m[i][j] = true;
    assert(m@ =~= old(m)@.update(i as int, m@[i as int]));
}

/// A copy of the matrix.
fn copy_matrix(m: &Vec<Vec<bool>>, Ghost(n): Ghost<nat>) -> (c: Vec<Vec<bool>>)
    requires
        square(m@, n),
    ensures
        square(c@, n),
        forall|i: int, j: int| 0 <= i < n && 0 <= j < n ==> #[trigger] c@[i]@[j] == m@[i]@[j],
{
    let mut c: Vec<Vec<bool>> = Vec::new();
    let mut i: usize = 0;
    while i < m.len()
        invariant
            square(m@, n),
            i <= n,
            c@.len() == i,
            forall|a: int| 0 <= a < i ==> (#[trigger] c@[a])@.len() == n,
            forall|a: int, b: int| 0 <= a < i && 0 <= b < n ==> #[trigger] c@[a]@[b] == m@[a]@[b],
        decreases n - i,
    {
        let mut row: Vec<bool> = Vec::new();
        let mut j: usize = 0;
        assert(m@[i as int]@.len() == n);
        while j < m[i].len()
            invariant
                i < n,
                square(m@, n),
                j <= n,
                row@.len() == j,
                forall|b: int| 0 <= b < j ==> #[trigger] row@[b] == m@[i as int]@[b],
            decreases n - j,
        {
            row.push(m[i][j]);
            j = j + 1;
        }
        c.push(row);
        i = i + 1;
    }
    c
}

/// One pass over all two-step connections: wherever the matrix holds `i` to
/// `k` and `k` to `j`, it is made to hold `i` to `j`. Reports whether anything
/// was added; if nothing was, the matrix is transitive.
fn saturate_once(
    m: &mut Vec<Vec<bool>>,
    Ghost(ns): Ghost<Seq<u128>>,
    Ghost(edges): Ghost<Set<(u128, u128)>>,
) -> (changed: bool)
    requires
        square(old(m)@, ns.len()),
        sound(ns, edges, old(m)@),
    ensures
        square(final(m)@, ns.len()),
        sound(ns, edges, final(m)@),
        included(old(m)@, final(m)@, ns.len()),
        !changed ==> transitive(final(m)@, ns.len()),
        total_true(final(m)@) >= total_true(old(m)@),
        changed ==> total_true(final(m)@) > total_true(old(m)@),
{
    let n = m.len();
    let ghost start = m@;
    let mut changed = false;
    let mut i: usize = 0;
    while i < n
        invariant
            n == ns.len(),
            start == old(m)@,
            i <= n,
            square(m@, n as nat),
            square(start, n as nat),
            sound(ns, edges, m@),
            included(start, m@, n as nat),
            total_true(m@) >= total_true(start),
            changed ==> total_true(m@) > total_true(start),
            !changed ==> m@ == start,
            !changed ==> forall|a: int, k: int, j: int|
                0 <= a < i && 0 <= k < n && 0 <= j < n ==> #[trigger] closed_at(start, a, k, j),
        decreases n - i,
    {
        let mut k: usize = 0;
        while k < n
            invariant
                n == ns.len(),
                i < n,
                k <= n,
                square(m@, n as nat),
                square(start, n as nat),
                sound(ns, edges, m@),
                included(start, m@, n as nat),
                total_true(m@) >= total_true(start),
                changed ==> total_true(m@) > total_true(start),
                !changed ==> m@ == start,
                !changed ==> forall|a: int, k: int, j: int|
                    0 <= a < i && 0 <= k < n && 0 <= j < n ==> #[trigger] closed_at(
                        start,
                        a,
                        k,
                        j,
                    ),
                !changed ==> forall|b: int, j: int|
                    0 <= b < k && 0 <= j < n ==> #[trigger] closed_at(start, i as int, b, j),
            decreases n - k,
        {
            if m[i][k] {
                let mut j: usize = 0;
                while j < n
                    invariant
                        n == ns.len(),
                        i < n,
                        k < n,
                        j <= n,
                        m@[i as int]@[k as int],
                        square(m@, n as nat),
                        square(start, n as nat),
                        sound(ns, edges, m@),
                        included(start, m@, n as nat),
                        total_true(m@) >= total_true(start),
                        changed ==> total_true(m@) > total_true(start),
                        !changed ==> m@ == start,
                        !changed ==> forall|a: int, k: int, j: int|
                            0 <= a < i && 0 <= k < n && 0 <= j < n ==> #[trigger] closed_at(
                                start,
                                a,
                                k,
                                j,
                            ),
                        !changed ==> forall|b: int, j: int|
                            0 <= b < k && 0 <= j < n ==> #[trigger] closed_at(
                                start,
                                i as int,
                                b,
                                j,
                            ),
                        !changed ==> forall|c: int|
                            0 <= c < j ==> #[trigger] closed_at(start, i as int, k as int, c),
                    decreases n - j,
                {
                    if m[k][j] && !m[i][j] {
                        let ghost before = m@;
                        proof {
                            lemma_reachable_trans(edges, ns[i as int], ns[k as int], ns[j as int]);
                        }
                        set_entry(m, i, j);
                        proof {
                            lemma_count_set(before[i as int]@, j as int);
                            lemma_total_update(before, i as int, m@[i as int]);
                            assert(m@[i as int]@[k as int]);
                            assert forall|a: int, b: int|
                                0 <= a < n && 0 <= b < n && #[trigger] m@[a]@[b] implies reachable(
                                edges,
                                ns[a],
                                ns[b],
                            ) by {
                                if a == i && b == j {
                                } else {
                                    assert(before[a]@[b]);
                                }
                            }
                            assert forall|a: int, b: int|
                                0 <= a < n && 0 <= b < n && #[trigger] start[a]@[b] implies m@[a]@[b] by {
                                assert(before[a]@[b]);
                            }
                        }
                        changed = true;
                    }
                    j = j + 1;
                }
            }
            k = k + 1;
        }
        i = i + 1;
    }
    changed
}

/// The transitive closure of the adjacency matrix `adj` of a graph on the
/// nodes `ns`.
pub(crate) fn transitive_closure(
    adj: &Vec<Vec<bool>>,
    Ghost(ns): Ghost<Seq<u128>>,
    Ghost(edges): Ghost<Set<(u128, u128)>>,
) -> (reach: Vec<Vec<bool>>)
    requires
        square(adj@, ns.len()),
        ns.no_duplicates(),
        mirrors_edges(ns, edges, adj@),
        forall|a: u128, b: u128| #[trigger]
            edges.contains((a, b)) ==> ns.contains(a) && ns.contains(b),
    ensures
        square(reach@, ns.len()),
        mirrors_closure(ns, edges, reach@),
{
    let ghost n = ns.len();
    let mut reach = copy_matrix(adj, Ghost(n));
    proof {
        assert forall|i: int, j: int|
            0 <= i < n && 0 <= j < n && #[trigger] reach@[i]@[j] implies reachable(
            edges,
            ns[i],
            ns[j],
        ) by {
            assert(adj@[i]@[j]);
            lemma_edge_reachable(edges, ns[i], ns[j]);
        }
        lemma_total_bound(reach@, n);
    }
    let mut changed = true;
    while changed
        invariant
            n == ns.len(),
            square(reach@, n),
            square(adj@, n),
            sound(ns, edges, reach@),
            included(adj@, reach@, n),
            total_true(reach@) <= n * n,
            !changed ==> transitive(reach@, n),
        decreases n * n - total_true(reach@) + (if changed {
            1int
        } else {
            0int
        }),
    {
        let ghost before = reach@;
        changed = saturate_once(&mut reach, Ghost(ns), Ghost(edges));
        proof {
            lemma_total_bound(reach@, n);
            assert forall|i: int, j: int|
                0 <= i < n && 0 <= j < n && #[trigger] adj@[i]@[j] implies reach@[i]@[j] by {
                assert(before[i]@[j]);
            }
        }
    }
    proof {
        let m = reach@;
        let holds = |a: u128, b: u128|
            exists|i: int, j: int|
                0 <= i < n && 0 <= j < n && ns[i] == a && ns[j] == b && #[trigger] m[i]@[j];
        assert forall|a: u128, b: u128| edges.contains((a, b)) implies #[trigger] holds(a, b) by {
            let i = choose|i: int| 0 <= i < n && ns[i] == a;
            let j = choose|j: int| 0 <= j < n && ns[j] == b;
            assert(adj@[i]@[j]);
            assert(m[i]@[j]);
        }
        assert forall|a: u128, c: u128, b: u128| #[trigger]
            holds(a, c) && #[trigger] edges.contains((c, b)) implies holds(a, b) by {
            let (i, k) = choose|i: int, k: int|
                0 <= i < n && 0 <= k < n && ns[i] == a && ns[k] == c && #[trigger] m[i]@[k];
            let j = choose|j: int| 0 <= j < n && ns[j] == b;
            assert(adj@[k]@[j]);
            assert(m[k]@[j]);
            assert(closed_at(m, i, k, j));
            assert(m[i]@[j]);
        }
        assert forall|i: int, j: int| 0 <= i < n && 0 <= j < n implies #[trigger] m[i]@[j]
            == reachable(edges, ns[i], ns[j]) by {
            if reachable(edges, ns[i], ns[j]) {
                let p = choose|p: Seq<u128>| joins(edges, p, ns[i], ns[j]);
                lemma_path_induction(edges, holds, p);
                let (i2, j2) = choose|i2: int, j2: int|
                    0 <= i2 < n && 0 <= j2 < n && ns[i2] == ns[i] && ns[j2] == ns[j]
                        && #[trigger] m[i2]@[j2];
                assert(i2 == i && j2 == j);
            }
        }
    }
    reach
}

} // verus!
