//! Strictly ascending vectors of task identifiers, the library's stand-in for
//! a set of nodes.

use vstd::prelude::*;

verus! {

/// Strictly ascending: every element below every later one.
pub open spec fn ascending(s: Seq<u128>) -> bool {
    forall|i: int, j: int| 0 <= i < j < s.len() ==> s[i] < s[j]
}

/// A strictly ascending sequence holds nothing twice.
pub proof fn lemma_ascending_distinct(s: Seq<u128>)
    requires
        ascending(s),
    ensures
        s.no_duplicates(),
{
    assert forall|i: int, j: int| 0 <= i < s.len() && 0 <= j < s.len() && i != j implies s[i]
        != s[j] by {
        if i < j {
            assert(s[i] < s[j]);
        } else {
            assert(s[j] < s[i]);
        }
    }
}

/// Two strictly ascending sequences with the same elements are the same
/// sequence.
pub proof fn law_ascending_unique(a: Seq<u128>, b: Seq<u128>)
    requires
        ascending(a),
        ascending(b),
        a.to_set() == b.to_set(),
    ensures
        a == b,
    decreases a.len(),
{
    lemma_ascending_distinct(a);
    lemma_ascending_distinct(b);
    a.unique_seq_to_set();
    b.unique_seq_to_set();
    if a.len() > 0 {
        let x = a.last();
        let y = b.last();
        assert(a.to_set().contains(x));
        assert(b.to_set().contains(y));
        assert(b.contains(x));
        assert(a.contains(y));
        let i = choose|i: int| 0 <= i < b.len() && b[i] == x;
        let j = choose|j: int| 0 <= j < a.len() && a[j] == y;
        assert(x == y) by {
            if i < b.len() - 1 {
                assert(b[i] < b[b.len() - 1]);
            }
            if j < a.len() - 1 {
                assert(a[j] < a[a.len() - 1]);
            }
        }
        let a0 = a.drop_last();
        let b0 = b.drop_last();
        assert forall|z: u128| a0.to_set().contains(z) <==> b0.to_set().contains(z) by {
            if a0.contains(z) {
                let k = choose|k: int| 0 <= k < a0.len() && a0[k] == z;
                assert(a[k] == z && a[k] < a[a.len() - 1]);
                assert(a.to_set().contains(z));
                assert(b.contains(z));
                let l = choose|l: int| 0 <= l < b.len() && b[l] == z;
                assert(b0[l] == z);
            }
            if b0.contains(z) {
                let k = choose|k: int| 0 <= k < b0.len() && b0[k] == z;
                assert(b[k] == z && b[k] < b[b.len() - 1]);
                assert(b.to_set().contains(z));
                assert(a.contains(z));
                let l = choose|l: int| 0 <= l < a.len() && a[l] == z;
                assert(a0[l] == z);
            }
        }
        assert(a0.to_set() =~= b0.to_set());
        law_ascending_unique(a0, b0);
        assert(a =~= a0.push(x));
        assert(b =~= b0.push(y));
    } else {
        assert(b.len() == 0);
        assert(a =~= b);
    }
}

/// The position of `x` in an ascending vector, by bisection.
pub fn find(s: &Vec<u128>, x: u128) -> (r: Option<usize>)
    requires
        ascending(s@),
    ensures
        match r {
            Some(i) => i < s@.len() && s@[i as int] == x,
            None => !s@.contains(x),
        },
{
    let mut lo: usize = 0;
    let mut hi: usize = s.len();
    while lo < hi
        invariant
            ascending(s@),
            lo <= hi <= s@.len(),
            forall|i: int| 0 <= i < lo ==> s@[i] < x,
            forall|i: int| hi <= i < s@.len() ==> x < s@[i],
        decreases hi - lo,
    {
        let mid: usize = lo + (hi - lo) / 2;
        let y = s[mid];
        if y == x {
            return Some(mid);
        } else if y < x {
            assert forall|i: int| 0 <= i < mid + 1 implies s@[i] < x by {
                if i < mid {
                    assert(s@[i] < s@[mid as int]);
                }
            }
            lo = mid + 1;
        } else {
            assert forall|i: int| mid <= i < s@.len() implies x < s@[i] by {
                if mid < i {
                    assert(s@[mid as int] < s@[i]);
                }
            }
            hi = mid;
        }
    }
    None
}

/// Puts `x` into an ascending vector at its place, unless it is there.
pub fn insert(s: &mut Vec<u128>, x: u128)
    requires
        ascending(old(s)@),
    ensures
        ascending(final(s)@),
        forall|y: u128| final(s)@.contains(y) <==> (old(s)@.contains(y) || y == x),
{
    let mut p: usize = 0;
    while p < s.len() && s[p] < x
        invariant
            p <= s@.len(),
            s@ == old(s)@,
            forall|i: int| 0 <= i < p ==> s@[i] < x,
        decreases s@.len() - p,
    {
        p = p + 1;
    }
    if p < s.len() && s[p] == x {
        return ;
    }
    let ghost before = s@;
    s.insert(p, x);
    proof {
        let after = s@;
        assert(after.len() == before.len() + 1);
        assert(after[p as int] == x);
        assert forall|i: int| 0 <= i < p implies after[i] == before[i] by {}
        assert forall|i: int| p < i < after.len() implies after[i] == before[i - 1] by {}
        assert forall|i: int, j: int| 0 <= i < j < after.len() implies after[i] < after[j] by {
            if j < p {
                assert(before[i] < before[j]);
            } else if j == p {
            } else if i < p {
                assert(before[i] < before[j - 1] || i == j - 1);
                if p as int <= j - 1 && (p as int) < before.len() {
                    assert(before[p as int] <= before[j - 1]) by {
                        if (p as int) < j - 1 {
                            assert(before[p as int] < before[j - 1]);
                        }
                    }
                }
            } else if i == p {
                if (p as int) < j - 1 {
                    assert(before[p as int] < before[j - 1]);
                }
            } else {
                assert(before[i - 1] < before[j - 1]);
            }
        }
        assert forall|y: u128| after.contains(y) <==> (before.contains(y) || y == x) by {
            if after.contains(y) {
                let i = choose|i: int| 0 <= i < after.len() && after[i] == y;
                if i < p {
                    assert(before[i] == y);
                } else if i > p {
                    assert(before[i - 1] == y);
                }
            }
            if before.contains(y) {
                let i = choose|i: int| 0 <= i < before.len() && before[i] == y;
                if i < p {
                    assert(after[i] == y);
                } else {
                    assert(after[i + 1] == y);
                }
            }
        }
    }
}

/// The elements of `v` in ascending order, each once.
pub fn sorted_set(v: &Vec<u128>) -> (s: Vec<u128>)
    ensures
        ascending(s@),
        s@.to_set() == v@.to_set(),
{
    let mut s: Vec<u128> = Vec::new();
    let mut k: usize = 0;
    while k < v.len()
        invariant
            k <= v@.len(),
            ascending(s@),
            forall|y: u128| s@.contains(y) <==> v@.take(k as int).contains(y),
        decreases v@.len() - k,
    {
        let ghost before = s@;
        insert(&mut s, v[k]);
        proof {
            let t0 = v@.take(k as int);
            let t1 = v@.take(k as int + 1);
            assert(t1 =~= t0.push(v@[k as int]));
            assert forall|y: u128| s@.contains(y) <==> t1.contains(y) by {
                if t1.contains(y) {
                    let i = choose|i: int| 0 <= i < t1.len() && t1[i] == y;
                    if i < k {
                        assert(t0[i] == y);
                    }
                }
                if t0.contains(y) {
                    let i = choose|i: int| 0 <= i < t0.len() && t0[i] == y;
                    assert(t1[i] == y);
                }
                assert(t1[k as int] == v@[k as int]);
            }
        }
        k = k + 1;
    }
    proof {
        assert(v@.take(k as int) =~= v@);
        assert(s@.to_set() =~= v@.to_set());
    }
    s
}

} // verus!
