//! The schedule builder: greedy list scheduling of a precedence graph under a
//! priority list and a capacity profile.

use vstd::prelude::*;
use crate::coffman_graham::{is_cg_list, lemma_cg_list_is_priority_list};
use crate::counting::{count_true, lemma_count_bound, lemma_count_full, lemma_count_set};
use crate::graph::PrecedenceGraph;
use crate::msf::{is_msf_list, is_priority_list, SuccessorCount};
use crate::nodeset::lemma_ascending_distinct;
use crate::relation::lemma_source_among;
use crate::schedule::{
    capacity, completes, done_before, is_greedy_schedule, is_valid_schedule,
    law_greedy_schedule_is_valid, lemma_done_monotone, lemma_done_stuck, lemma_done_within,
    lemma_slot_prefix_all, lemma_slot_prefix_step, lemma_slot_tasks, ready, slot_prefix, slot_tasks,
    slot_view, tasks_at, ProfilePolicy, ScheduleError,
};

verus! {

/// The slots of a schedule as sequences.
pub open spec fn slots(s: Seq<Vec<Option<u128>>>) -> Seq<Seq<Option<u128>>> {
    Seq::new(s.len(), |t: int| s[t]@)
}

/// `done` marks the positions of the nodes in `d`.
pub open spec fn marks_done(g: &PrecedenceGraph, done: Seq<bool>, d: Set<u128>) -> bool {
    &&& done.len() == g.node_seq().len()
    &&& forall|i: int| 0 <= i < done.len() ==> (#[trigger] done[i] <==> d.contains(g.node_seq()[i]))
}

/// `pos` lists the positions of the nodes of `list`.
pub open spec fn positions_of(g: &PrecedenceGraph, pos: Seq<usize>, list: Seq<u128>) -> bool {
    &&& pos.len() == list.len()
    &&& forall|p: int|
        0 <= p < pos.len() ==> (#[trigger] pos[p]) < g.node_seq().len() && g.node_seq()[pos[p] as int]
            == list[p]
}

impl PrecedenceGraph {
    /// Whether `list` holds every node of the graph exactly once.
    pub fn is_priority_list_of(&self, list: &Vec<u128>) -> (r: bool)
        requires
            self.wf(),
        ensures
            r == is_priority_list(self.nodes(), list@),
    {
        let n = self.len();
        let ghost ns = self.node_seq();
        proof {
            lemma_ascending_distinct(ns);
            ns.unique_seq_to_set();
        }
        if list.len() != n {
            proof {
                if list@.no_duplicates() {
                    list@.unique_seq_to_set();
                }
            }
            return false;
        }
        let mut seen: Vec<bool> = Vec::new();
        let mut t: usize = 0;
        while t < n
            invariant
                t <= n,
                seen@.len() == t,
                forall|i: int| 0 <= i < t ==> !#[trigger] seen@[i],
            decreases n - t,
        {
            seen.push(false);
            t = t + 1;
        }
        let mut p: usize = 0;
        while p < n
            invariant
                self.wf(),
                ns == self.node_seq(),
                ns.no_duplicates(),
                n == ns.len(),
                list@.len() == n,
                p <= n,
                seen@.len() == n,
                forall|i: int|
                    0 <= i < n ==> (#[trigger] seen@[i] <==> list@.take(p as int).contains(ns[i])),
                forall|a: int| 0 <= a < p ==> ns.contains(#[trigger] list@[a]),
                list@.take(p as int).no_duplicates(),
            decreases n - p,
        {
            let x = list[p];
            let ghost front = list@.take(p as int);
            let ghost next = list@.take(p as int + 1);
            proof {
                assert(next =~= front.push(x));
            }
            match self.index_of(x) {
                None => {
                    proof {
                        assert(list@.to_set().contains(x));
                    }
                    return false;
                },
                Some(i) => {
                    if seen[i] {
                        proof {
                            let a = choose|a: int| 0 <= a < front.len() && front[a] == ns[i as int];
                            assert(list@[a] == list@[p as int]);
                        }
                        return false;
                    }
                    seen.set(i, true);
                    proof {
                        assert forall|j: int| 0 <= j < n implies (#[trigger] seen@[j]
                            <==> next.contains(ns[j])) by {
                            if j == i {
                                assert(next[p as int] == ns[j]);
                            } else {
                                if front.contains(ns[j]) {
                                    let a = choose|a: int| 0 <= a < front.len() && front[a] == ns[j];
                                    assert(next[a] == ns[j]);
                                }
                                if next.contains(ns[j]) {
                                    let a = choose|a: int| 0 <= a < next.len() && next[a] == ns[j];
                                    assert(a < p);
                                    assert(front[a] == ns[j]);
                                }
                            }
                        }
                        assert forall|a: int, b: int|
                            0 <= a < next.len() && 0 <= b < next.len() && a != b implies next[a]
                            != next[b] by {
                            if a < p && b < p {
                                assert(front[a] != front[b]);
                            } else if a == p {
                                assert(front.contains(front[b]));
                            } else {
                                assert(front.contains(front[a]));
                            }
                        }
                    }
                },
            }
            p = p + 1;
        }
        proof {
            assert(list@.take(n as int) =~= list@);
            list@.unique_seq_to_set();
            assert(list@.to_set().subset_of(self.nodes())) by {
                assert forall|x: u128| list@.to_set().contains(x) implies self.nodes().contains(
                    x,
                ) by {
                    let a = choose|a: int| 0 <= a < list@.len() && list@[a] == x;
                    assert(ns.contains(list@[a]));
                }
            }
            vstd::set_lib::lemma_subset_equality(list@.to_set(), self.nodes());
        }
        true
    }

    /// The positions of the nodes of a priority list.
    fn positions(&self, list: &Vec<u128>) -> (pos: Vec<usize>)
        requires
            self.wf(),
            is_priority_list(self.nodes(), list@),
        ensures
            positions_of(self, pos@, list@),
    {
        let mut pos: Vec<usize> = Vec::new();
        let mut p: usize = 0;
        while p < list.len()
            invariant
                self.wf(),
                is_priority_list(self.nodes(), list@),
                p <= list@.len(),
                pos@.len() == p,
                forall|q: int|
                    0 <= q < p ==> (#[trigger] pos@[q]) < self.node_seq().len()
                        && self.node_seq()[pos@[q] as int] == list@[q],
            decreases list@.len() - p,
        {
            let found = self.index_of(list[p]);
            proof {
                assert(list@.to_set().contains(list@[p as int]));
            }
            pos.push(found.unwrap());
            p = p + 1;
        }
        pos
    }

    /// Whether the node at position `i` can run next, `done` marking what has
    /// run.
    fn is_ready(&self, done: &Vec<bool>, i: usize, Ghost(d): Ghost<Set<u128>>) -> (r: bool)
        requires
            self.wf(),
            i < self.node_seq().len(),
            marks_done(self, done@, d),
        ensures
            r == ready(self.edges(), d, self.node_seq()[i as int]),
    {
        let ghost ns = self.node_seq();
        let ghost edges = self.edges();
        let n = self.len();
        if done[i] {
            return false;
        }
        let mut j: usize = 0;
        while j < n
            invariant
                self.wf(),
                ns == self.node_seq(),
                edges == self.edges(),
                n == ns.len(),
                i < n,
                j <= n,
                marks_done(self, done@, d),
                forall|c: int| 0 <= c < j && #[trigger] edges.contains((ns[c], ns[i as int])) ==> done@[c],
            decreases n - j,
        {
            if self.has_edge_at(j, i) && !done[j] {
                proof {
                    assert(edges.contains((ns[j as int], ns[i as int])));
                    assert(!d.contains(ns[j as int]));
                }
                return false;
            }
            j = j + 1;
        }
        proof {
            assert forall|p: u128| #[trigger] edges.contains((p, ns[i as int])) implies d.contains(
                p,
            ) by {
                assert(self.nodes().contains(p));
                let c = choose|c: int| 0 <= c < ns.len() && ns[c] == p;
                assert(edges.contains((ns[c], ns[i as int])));
                assert(done@[c]);
            }
        }
        true
    }

    /// The tasks of the next slot and their positions, `done` marking what
    /// has run.
    fn fill_slot(
        &self,
        list: &Vec<u128>,
        pos: &Vec<usize>,
        done: &Vec<bool>,
        cap: usize,
        Ghost(d): Ghost<Set<u128>>,
    ) -> (r: (Vec<u128>, Vec<usize>))
        requires
            self.wf(),
            positions_of(self, pos@, list@),
            marks_done(self, done@, d),
        ensures
            r.0@ == slot_tasks(self.edges(), list@, d, cap as nat),
            positions_of(self, r.1@, r.0@),
    {
        let ghost edges = self.edges();
        let mut tasks: Vec<u128> = Vec::new();
        let mut picked: Vec<usize> = Vec::new();
        let mut p: usize = 0;
        proof {
            lemma_slot_prefix_all(edges, list@, d, cap as nat);
        }
        while p < list.len()
            invariant
                self.wf(),
                edges == self.edges(),
                positions_of(self, pos@, list@),
                marks_done(self, done@, d),
                p <= list@.len(),
                tasks@ == slot_prefix(edges, list@, d, cap as nat, p as int),
                positions_of(self, picked@, tasks@),
            decreases list@.len() - p,
        {
            proof {
                lemma_slot_prefix_step(edges, list@, d, cap as nat, p as int);
            }
            if tasks.len() < cap {
                let i = pos[p];
                if self.is_ready(done, i, Ghost(d)) {
                    tasks.push(list[p]);
                    picked.push(i);
                }
            }
            p = p + 1;
        }
        (tasks, picked)
    }

    /// The greedy list schedule under `list` and `profile`: slot by slot, as
    /// many ready tasks as the slot has processors, highest priority first.
    /// Each slot holds one entry per processor, `None` for an idle one.
    pub fn schedule(&self, list: &Vec<u128>, profile: &Vec<usize>, policy: ProfilePolicy) -> (r: Result<
        Vec<Vec<Option<u128>>>,
        ScheduleError,
    >)
        requires
            self.wf(),
            is_priority_list(self.nodes(), list@),
        ensures
            r is Ok <==> completes(self.edges(), self.nodes(), list@, profile@, policy),
            r matches Ok(s) ==> is_greedy_schedule(
                self.edges(),
                self.nodes(),
                list@,
                profile@,
                policy,
                slots(s@),
            ) && is_valid_schedule(self.nodes(), self.edges(), profile@, policy, slots(s@)),
            policy == ProfilePolicy::RepeatLast && profile@.len() > 0 && profile@[profile@.len() - 1]
                >= 1 ==> r is Ok,
            self.nodes().len() == 0 ==> r is Ok,
    {
        let n = self.len();
        let ghost ns = self.node_seq();
        let ghost edges = self.edges();
        let ghost nodes = self.nodes();
        let pos = self.positions(list);
        let mut done: Vec<bool> = Vec::new();
        let mut k: usize = 0;
        while k < n
            invariant
                k <= n,
                done@.len() == k,
                forall|i: int| 0 <= i < k ==> !#[trigger] done@[i],
                count_true(done@) == 0,
            decreases n - k,
        {
            let ghost before = done@;
            done.push(false);
            assert(done@.drop_last() =~= before);
            k = k + 1;
        }
        let mut placed: usize = 0;
        let mut out: Vec<Vec<Option<u128>>> = Vec::new();
        let ghost mut d: Set<u128> = Set::empty();
        proof {
            lemma_ascending_distinct(ns);
        }
        while placed < n
            invariant
                self.wf(),
                ns == self.node_seq(),
                edges == self.edges(),
                nodes == self.nodes(),
                ns.no_duplicates(),
                n == ns.len(),
                n == nodes.len(),
                is_priority_list(nodes, list@),
                positions_of(self, pos@, list@),
                marks_done(self, done@, d),
                count_true(done@) == placed,
                placed <= n,
                d == done_before(edges, list@, profile@, policy, out@.len() as nat),
                forall|t: int|
                    0 <= t < out@.len() ==> (#[trigger] out@[t])@ == slot_view(
                        tasks_at(edges, list@, profile@, policy, t as nat),
                        capacity(profile@, policy, t),
                    ),
                out@.len() > 0 ==> done_before(
                    edges,
                    list@,
                    profile@,
                    policy,
                    (out@.len() - 1) as nat,
                ) != nodes,
            decreases
                    (if out@.len() < profile@.len() {
                        profile@.len() - out@.len()
                    } else {
                        0
                    }) + (n - placed),
        {
            let t = out.len();
            let cap = if t < profile.len() {
                profile[t]
            } else if policy == ProfilePolicy::RepeatLast && profile.len() > 0 {
                profile[profile.len() - 1]
            } else {
                0
            };
            assert(cap as nat == capacity(profile@, policy, t as int));
            let ghost idle: int;
            proof {
                lemma_count_full(done@);
                idle = choose|u: int| 0 <= u < n && !done@[u];
                assert(nodes.contains(ns[idle]) && !d.contains(ns[idle]));
                assert(d != nodes);
            }
            if t >= profile.len() && cap == 0 {
                proof {
                    assert forall|u: int| u >= t implies capacity(profile@, policy, u) == 0 by {}
                    assert forall|t2: nat| #[trigger]
                        done_before(edges, list@, profile@, policy, t2) != nodes by {
                        if t2 >= t {
                            lemma_done_stuck(edges, list@, profile@, policy, t as nat, t2);
                        } else {
                            lemma_done_monotone(edges, list@, profile@, policy, t2, t as nat);
                            lemma_done_within(edges, list@, profile@, policy, t as nat);
                            if done_before(edges, list@, profile@, policy, t2) == nodes {
                                assert(d =~= nodes);
                            }
                        }
                    }
                }
                return Err(ScheduleError::EmptyProfile);
            }
            let (tasks, picked) = self.fill_slot(list, &pos, &done, cap, Ghost(d));
            proof {
                lemma_slot_tasks(edges, list@, d, cap as nat);
                if t >= profile@.len() {
                    let rest = Set::new(|x: u128| nodes.contains(x) && !d.contains(x));
                    assert(rest.contains(ns[idle]));
                    let m = lemma_source_among(nodes, edges, rest, ns[idle]);
                    assert forall|p: u128| #[trigger] edges.contains((p, m)) implies d.contains(p) by {
                        assert(nodes.contains(p));
                        assert(!rest.contains(p));
                    }
                    assert(ready(edges, d, m));
                    assert(list@.to_set().contains(m));
                    assert(list@.contains(m) && ready(edges, d, m));
                    assert(tasks@.len() >= 1);
                }
            }
            let mut slot: Vec<Option<u128>> = Vec::new();
            let mut a: usize = 0;
            while a < tasks.len()
                invariant
                    a <= tasks@.len(),
                    slot@.len() == a,
                    forall|i: int| 0 <= i < a ==> #[trigger] slot@[i] == Some(tasks@[i]),
                decreases tasks@.len() - a,
            {
                slot.push(Some(tasks[a]));
                a = a + 1;
            }
            while slot.len() < cap
                invariant
                    tasks@.len() <= slot@.len(),
                    slot@.len() <= cap || slot@.len() == tasks@.len(),
                    tasks@.len() <= cap,
                    forall|i: int| 0 <= i < tasks@.len() ==> #[trigger] slot@[i] == Some(tasks@[i]),
                    forall|i: int| tasks@.len() <= i < slot@.len() ==> #[trigger] slot@[i] is None,
                decreases cap - slot@.len(),
            {
                slot.push(None);
            }
            assert(slot@ =~= slot_view(tasks@, cap as nat));
            let ghost d0 = d;
            let ghost placed0 = placed;
            let mut q: usize = 0;
            while q < picked.len()
                invariant
                    self.wf(),
                    ns == self.node_seq(),
                    n == ns.len(),
                    ns.no_duplicates(),
                    positions_of(self, picked@, tasks@),
                    tasks@.no_duplicates(),
                    forall|i: int| 0 <= i < tasks@.len() ==> !d0.contains(#[trigger] tasks@[i]),
                    q <= picked@.len(),
                    marks_done(self, done@, d0.union(tasks@.take(q as int).to_set())),
                    count_true(done@) == placed0 + q,
                    placed == placed0 + q,
                    placed <= n,
                decreases picked@.len() - q,
            {
                let i = picked[q];
                let ghost before = done@;
                let ghost front = tasks@.take(q as int);
                let ghost next = tasks@.take(q as int + 1);
                proof {
                    assert(next =~= front.push(tasks@[q as int]));
                    assert(ns[i as int] == tasks@[q as int]);
                    if front.contains(tasks@[q as int]) {
                        let b = choose|b: int| 0 <= b < front.len() && front[b] == tasks@[q as int];
                        assert(tasks@[b] == tasks@[q as int]);
                    }
                    assert(!before[i as int]);
                    lemma_count_set(before, i as int);
                    lemma_count_bound(before.update(i as int, true));
                }
                done.set(i, true);
                placed = placed + 1;
                proof {
                    assert(done@ =~= before.update(i as int, true));
                    let now = d0.union(next.to_set());
                    assert forall|j: int| 0 <= j < n implies (#[trigger] done@[j] <==> now.contains(
                        ns[j],
                    )) by {
                        if j == i {
                            assert(next[q as int] == ns[j]);
                        } else {
                            if front.contains(ns[j]) {
                                let b = choose|b: int| 0 <= b < front.len() && front[b] == ns[j];
                                assert(next[b] == ns[j]);
                            }
                            if next.contains(ns[j]) {
                                let b = choose|b: int| 0 <= b < next.len() && next[b] == ns[j];
                                assert(b < q);
                                assert(front[b] == ns[j]);
                            }
                        }
                    }
                }
                q = q + 1;
            }
            proof {
                assert(tasks@.take(tasks@.len() as int) =~= tasks@);
                d = d0.union(tasks@.to_set());
                assert(out@.len() == t);
            }
            let ghost before_out = out@;
            out.push(slot);
            proof {
                assert forall|u: int| 0 <= u < out@.len() implies (#[trigger] out@[u])@ == slot_view(
                    tasks_at(edges, list@, profile@, policy, u as nat),
                    capacity(profile@, policy, u),
                ) by {
                    if u < t {
                        assert(out@[u] == before_out[u]);
                    }
                }
            }
        }
        proof {
            lemma_count_full(done@);
            lemma_done_within(edges, list@, profile@, policy, out@.len() as nat);
            assert forall|x: u128| nodes.contains(x) implies d.contains(x) by {
                let i = choose|i: int| 0 <= i < ns.len() && ns[i] == x;
                assert(done@[i]);
            }
            assert(d =~= nodes);
            let s = slots(out@);
            assert forall|t: int| 0 <= t < s.len() implies #[trigger] s[t] == slot_view(
                tasks_at(edges, list@, profile@, policy, t as nat),
                capacity(profile@, policy, t),
            ) by {
                assert(s[t] == out@[t]@);
            }
            assert(is_greedy_schedule(edges, nodes, list@, profile@, policy, s));
            law_greedy_schedule_is_valid(nodes, edges, list@, profile@, policy, s);
        }
        Ok(out)
    }

    /// The schedule under the Most-Successors-First priority list, the
    /// profile's last value holding for all later slots.
    pub fn msf_schedule(&self, profile: &Vec<usize>) -> (r: Result<Vec<Vec<Option<u128>>>, ScheduleError>)
        requires
            self.wf(),
        ensures
            exists|list: Seq<u128>|
                is_msf_list(self.nodes(), self.edges(), SuccessorCount::Immediate, list) && (r is Ok
                    <==> completes(
                    self.edges(),
                    self.nodes(),
                    list,
                    profile@,
                    ProfilePolicy::RepeatLast,
                )) && (r matches Ok(s) ==> is_greedy_schedule(
                    self.edges(),
                    self.nodes(),
                    list,
                    profile@,
                    ProfilePolicy::RepeatLast,
                    slots(s@),
                )),
            r matches Ok(s) ==> is_valid_schedule(
                self.nodes(),
                self.edges(),
                profile@,
                ProfilePolicy::RepeatLast,
                slots(s@),
            ),
            profile@.len() > 0 && profile@[profile@.len() - 1] >= 1 ==> r is Ok,
    {
        let list = self.msf_list();
        self.schedule(&list, profile, ProfilePolicy::RepeatLast)
    }

    /// The schedule under the Coffman–Graham priority list, the profile's
    /// last value holding for all later slots.
    pub fn cg_schedule(&self, profile: &Vec<usize>) -> (r: Result<Vec<Vec<Option<u128>>>, ScheduleError>)
        requires
            self.wf(),
        ensures
            exists|list: Seq<u128>|
                is_cg_list(self.nodes(), self.edges(), list) && (r is Ok <==> completes(
                    self.edges(),
                    self.nodes(),
                    list,
                    profile@,
                    ProfilePolicy::RepeatLast,
                )) && (r matches Ok(s) ==> is_greedy_schedule(
                    self.edges(),
                    self.nodes(),
                    list,
                    profile@,
                    ProfilePolicy::RepeatLast,
                    slots(s@),
                )),
            r matches Ok(s) ==> is_valid_schedule(
                self.nodes(),
                self.edges(),
                profile@,
                ProfilePolicy::RepeatLast,
                slots(s@),
            ),
            profile@.len() > 0 && profile@[profile@.len() - 1] >= 1 ==> r is Ok,
    {
        let list = self.cg_list();
        proof {
            lemma_cg_list_is_priority_list(self.nodes(), self.edges(), list@);
        }
        self.schedule(&list, profile, ProfilePolicy::RepeatLast)
    }
}

} // verus!
