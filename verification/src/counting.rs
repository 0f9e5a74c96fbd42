//! Counting the `true` entries of boolean rows and matrices.

use vstd::prelude::*;

verus! {

/// The number of `true` entries of a row.
pub open spec fn count_true(s: Seq<bool>) -> nat
    decreases s.len(),
{
    if s.len() == 0 {
        0
    } else {
        count_true(s.drop_last()) + if s.last() {
            1nat
        } else {
            0nat
        }
    }
}

/// The number of `true` entries of a matrix, row by row.
pub open spec fn total_true(m: Seq<Vec<bool>>) -> nat
    decreases m.len(),
{
    if m.len() == 0 {
        0
    } else {
        total_true(m.drop_last()) + count_true(m.last()@)
    }
}

/// `m` has `n` rows of `n` entries each.
pub open spec fn square(m: Seq<Vec<bool>>, n: nat) -> bool {
    &&& m.len() == n
    &&& forall|i: int| 0 <= i < n ==> (#[trigger] m[i])@.len() == n
}

/// A row has no more `true` entries than entries.
pub proof fn lemma_count_bound(s: Seq<bool>)
    ensures
        count_true(s) <= s.len(),
    decreases s.len(),
{
    if s.len() > 0 {
        lemma_count_bound(s.drop_last());
    }
}

/// A row of which every entry is `true` counts its length, and the other way
/// round.
pub proof fn lemma_count_full(s: Seq<bool>)
    ensures
        count_true(s) == s.len() <==> forall|i: int| 0 <= i < s.len() ==> s[i],
    decreases s.len(),
{
    if s.len() > 0 {
        let s0 = s.drop_last();
        lemma_count_full(s0);
        lemma_count_bound(s0);
        if count_true(s) == s.len() {
            assert forall|i: int| 0 <= i < s.len() implies s[i] by {
                if i < s.len() - 1 {
                    assert(s0[i]);
                }
            }
        }
        if forall|i: int| 0 <= i < s.len() ==> s[i] {
            assert forall|i: int| 0 <= i < s0.len() implies s0[i] by {
                assert(s[i]);
            }
        }
    }
}

/// Switching one entry from `false` to `true` adds one to the count.
pub proof fn lemma_count_set(s: Seq<bool>, j: int)
    requires
        0 <= j < s.len(),
        !s[j],
    ensures
        count_true(s.update(j, true)) == count_true(s) + 1,
    decreases s.len(),
{
    let t = s.update(j, true);
    if j == s.len() - 1 {
        assert(t.drop_last() =~= s.drop_last());
    } else {
        lemma_count_set(s.drop_last(), j);
        assert(t.drop_last() =~= s.drop_last().update(j, true));
    }
}

/// Replacing one row changes the total by the difference of the two rows.
pub proof fn lemma_total_update(m: Seq<Vec<bool>>, i: int, row: Vec<bool>)
    requires
        0 <= i < m.len(),
    ensures
        total_true(m.update(i, row)) + count_true(m[i]@) == total_true(m) + count_true(row@),
    decreases m.len(),
{
    let t = m.update(i, row);
    if i == m.len() - 1 {
        assert(t.drop_last() =~= m.drop_last());
    } else {
        lemma_total_update(m.drop_last(), i, row);
        assert(t.drop_last() =~= m.drop_last().update(i, row));
    }
}

/// A matrix of rows of length `n` holds at most `n` per row.
pub proof fn lemma_total_bound(m: Seq<Vec<bool>>, n: nat)
    requires
        forall|i: int| 0 <= i < m.len() ==> (#[trigger] m[i])@.len() == n,
    ensures
        total_true(m) <= m.len() * n,
    decreases m.len(),
{
    if m.len() > 0 {
        let m0 = m.drop_last();
        assert forall|i: int| 0 <= i < m0.len() implies (#[trigger] m0[i])@.len() == n by {
            assert(m[i]@.len() == n);
        }
        lemma_total_bound(m0, n);
        lemma_count_bound(m.last()@);
        assert(m.len() * n == m0.len() * n + n) by (nonlinear_arith)
            requires
                m.len() == m0.len() + 1,
        ;
    }
}

/// The nodes whose position is below `k` and marked in `row`.
pub open spec fn marked_set(ns: Seq<u128>, row: Seq<bool>, k: int) -> Set<u128> {
    Set::new(|x: u128| exists|j: int| 0 <= j < k && row[j] && ns[j] == x)
}

/// Where no node is listed twice, the marked nodes are as many as the marks.
pub proof fn lemma_marked_count(ns: Seq<u128>, row: Seq<bool>, k: int)
    requires
        ns.no_duplicates(),
        row.len() == ns.len(),
        0 <= k <= ns.len(),
    ensures
        marked_set(ns, row, k).finite(),
        marked_set(ns, row, k).len() == count_true(row.take(k)),
    decreases k,
{
    if k == 0 {
        assert(marked_set(ns, row, k) =~= Set::<u128>::empty());
    } else {
        lemma_marked_count(ns, row, k - 1);
        let prev = marked_set(ns, row, k - 1);
        assert(row.take(k).drop_last() =~= row.take(k - 1));
        assert(row.take(k).last() == row[k - 1]);
        if row[k - 1] {
            assert(!prev.contains(ns[k - 1]));
            assert(marked_set(ns, row, k) =~= prev.insert(ns[k - 1]));
        } else {
            assert(marked_set(ns, row, k) =~= prev);
        }
    }
}

} // verus!
