//! Greedy list scheduling: what the schedule of a graph under a priority list
//! and a capacity profile is, and what holds of every such schedule.

use vstd::prelude::*;
use crate::msf::is_priority_list;
use crate::relation::valid_graph;

verus! {

/// What the capacity is once the profile has run out.
#[derive(Clone, Copy, Debug, PartialEq, Eq, Structural)]
pub enum ProfilePolicy {
    /// The last value of the profile holds for every later slot. This is the
    /// default.
    RepeatLast,
    /// There are no slots but those of the profile.
    Finite,
}

/// Why no schedule could be built.
#[derive(Clone, Copy, Debug, PartialEq, Eq, Structural)]
pub enum ScheduleError {
    /// Tasks remain and no later slot has any capacity.
    EmptyProfile,
}

/// The number of processors in slot `t`.
pub open spec fn capacity(profile: Seq<usize>, policy: ProfilePolicy, t: int) -> nat {
    if 0 <= t < profile.len() {
        profile[t] as nat
    } else if policy == ProfilePolicy::RepeatLast && profile.len() > 0 && t >= 0 {
        profile[profile.len() - 1] as nat
    } else {
        0
    }
}

/// `v` can run in the next slot: it has not run, and all its immediate
/// predecessors have, in the slots counted in `done`.
pub open spec fn ready(edges: Set<(u128, u128)>, done: Set<u128>, v: u128) -> bool {
    &&& !done.contains(v)
    &&& forall|p: u128| #[trigger] edges.contains((p, v)) ==> done.contains(p)
}

/// Readiness as a predicate on tasks.
pub open spec fn ready_pred(edges: Set<(u128, u128)>, done: Set<u128>) -> spec_fn(u128) -> bool {
    |v: u128| ready(edges, done, v)
}

/// The tasks of one slot: the ready tasks in the order of the priority list,
/// as many of them as the slot has processors.
pub open spec fn slot_tasks(
    edges: Set<(u128, u128)>,
    list: Seq<u128>,
    done: Set<u128>,
    cap: nat,
) -> Seq<u128> {
    let r = list.filter(ready_pred(edges, done));
    if cap < r.len() {
        r.take(cap as int)
    } else {
        r
    }
}

/// The tasks that have run in the slots before slot `t`.
pub open spec fn done_before(
    edges: Set<(u128, u128)>,
    list: Seq<u128>,
    profile: Seq<usize>,
    policy: ProfilePolicy,
    t: nat,
) -> Set<u128>
    decreases t,
{
    if t == 0 {
        Set::empty()
    } else {
        let d = done_before(edges, list, profile, policy, (t - 1) as nat);
        d.union(slot_tasks(edges, list, d, capacity(profile, policy, t - 1)).to_set())
    }
}

/// The tasks of slot `t`, highest priority first.
pub open spec fn tasks_at(
    edges: Set<(u128, u128)>,
    list: Seq<u128>,
    profile: Seq<usize>,
    policy: ProfilePolicy,
    t: nat,
) -> Seq<u128> {
    slot_tasks(
        edges,
        list,
        done_before(edges, list, profile, policy, t),
        capacity(profile, policy, t as int),
    )
}

/// A slot as it is handed out: one entry per processor, the tasks first, the
/// idle processors after them.
pub open spec fn slot_view(tasks: Seq<u128>, cap: nat) -> Seq<Option<u128>> {
    Seq::new(
        cap,
        |i: int|
            if i < tasks.len() {
                Some(tasks[i])
            } else {
                None
            },
    )
}

/// Some number of slots is enough for every task.
pub open spec fn completes(
    edges: Set<(u128, u128)>,
    nodes: Set<u128>,
    list: Seq<u128>,
    profile: Seq<usize>,
    policy: ProfilePolicy,
) -> bool {
    exists|t: nat| #[trigger] done_before(edges, list, profile, policy, t) == nodes
}

/// `s` is the schedule that greedy list scheduling builds: slot by slot the
/// ready tasks of highest priority, and no more slots than the tasks need.
pub open spec fn is_greedy_schedule(
    edges: Set<(u128, u128)>,
    nodes: Set<u128>,
    list: Seq<u128>,
    profile: Seq<usize>,
    policy: ProfilePolicy,
    s: Seq<Seq<Option<u128>>>,
) -> bool {
    &&& forall|t: int|
        0 <= t < s.len() ==> #[trigger] s[t] == slot_view(
            tasks_at(edges, list, profile, policy, t as nat),
            capacity(profile, policy, t),
        )
    &&& done_before(edges, list, profile, policy, s.len()) == nodes
    &&& s.len() > 0 ==> done_before(edges, list, profile, policy, (s.len() - 1) as nat) != nodes
}

/// Task `v` runs in slot `t` of `s`.
pub open spec fn placed_at(s: Seq<Seq<Option<u128>>>, v: u128, t: int) -> bool {
    0 <= t < s.len() && s[t].contains(Some(v))
}

/// The invariants of a schedule: every slot has as many entries as it has
/// processors; every node runs, in one slot and on one processor; nothing
/// else runs; and every task runs in a later slot than each of its
/// predecessors.
pub open spec fn is_valid_schedule(
    nodes: Set<u128>,
    edges: Set<(u128, u128)>,
    profile: Seq<usize>,
    policy: ProfilePolicy,
    s: Seq<Seq<Option<u128>>>,
) -> bool {
    &&& forall|t: int| 0 <= t < s.len() ==> (#[trigger] s[t]).len() == capacity(profile, policy, t)
    &&& forall|v: u128| #[trigger] nodes.contains(v) ==> exists|t: int| placed_at(s, v, t)
    &&& forall|v: u128, t1: int, t2: int|
        #[trigger] placed_at(s, v, t1) && #[trigger] placed_at(s, v, t2) ==> t1 == t2
    &&& forall|t: int, i: int, j: int|
        0 <= t < s.len() && 0 <= i < j < s[t].len() && s[t][i] is Some ==> #[trigger] s[t][i]
            != #[trigger] s[t][j]
    &&& forall|v: u128, t: int| #[trigger] placed_at(s, v, t) ==> nodes.contains(v)
    &&& forall|p: u128, c: u128, tp: int, tc: int|
        edges.contains((p, c)) && #[trigger] placed_at(s, p, tp) && #[trigger] placed_at(s, c, tc)
            ==> tp < tc
}

/// Filtering keeps a sequence free of duplicates.
pub proof fn lemma_filter_no_duplicates(s: Seq<u128>, pred: spec_fn(u128) -> bool)
    requires
        s.no_duplicates(),
    ensures
        s.filter(pred).no_duplicates(),
    decreases s.len(),
{
    if s.len() == 0 {
        s.lemma_filter_len(pred);
    } else {
        let front = s.drop_last();
        let last = s.last();
        lemma_filter_no_duplicates(front, pred);
        assert(s =~= front.push(last));
        front.lemma_filter_push(last, pred);
        let f = front.filter(pred);
        if pred(last) {
            if f.contains(last) {
                front.lemma_filter_contains_rev(pred, last);
                let i = choose|i: int| 0 <= i < front.len() && front[i] == last;
                assert(s[i] == s[s.len() - 1]);
            }
            assert forall|i: int, j: int|
                0 <= i < f.push(last).len() && 0 <= j < f.push(last).len() && i != j implies f.push(
                last,
            )[i] != f.push(last)[j] by {
                if i < f.len() && j < f.len() {
                    assert(f[i] != f[j]);
                } else if i < f.len() {
                    assert(f.contains(f[i]));
                } else {
                    assert(f.contains(f[j]));
                }
            }
        }
    }
}

/// What the tasks of a slot are: ready tasks of the list, each once, no more
/// than the capacity, and at least one if anything in the list is ready and
/// there is a processor.
pub proof fn lemma_slot_tasks(edges: Set<(u128, u128)>, list: Seq<u128>, done: Set<u128>, cap: nat)
    requires
        list.no_duplicates(),
    ensures
        slot_tasks(edges, list, done, cap).no_duplicates(),
        slot_tasks(edges, list, done, cap).len() <= cap,
        forall|i: int|
            0 <= i < slot_tasks(edges, list, done, cap).len() ==> ready(
                edges,
                done,
                #[trigger] slot_tasks(edges, list, done, cap)[i],
            ) && list.contains(slot_tasks(edges, list, done, cap)[i]),
        cap >= 1 && (exists|v: u128| list.contains(v) && ready(edges, done, v)) ==> slot_tasks(
            edges,
            list,
            done,
            cap,
        ).len() >= 1,
{
    let pred = ready_pred(edges, done);
    let r = list.filter(pred);
    let tasks = slot_tasks(edges, list, done, cap);
    lemma_filter_no_duplicates(list, pred);
    assert forall|i: int| 0 <= i < tasks.len() implies ready(edges, done, #[trigger] tasks[i])
        && list.contains(tasks[i]) by {
        assert(tasks[i] == r[i]);
        list.lemma_filter_pred(pred, i);
        assert(r.contains(r[i]));
        list.lemma_filter_contains_rev(pred, r[i]);
    }
    if cap >= 1 && (exists|v: u128| list.contains(v) && ready(edges, done, v)) {
        let v = choose|v: u128| list.contains(v) && ready(edges, done, v);
        let i = choose|i: int| 0 <= i < list.len() && list[i] == v;
        assert(pred(list[i]));
        list.lemma_filter_contains(pred, i);
    }
}

/// The tasks of a slot, taken off the first `p` entries of the list.
pub open spec fn slot_prefix(
    edges: Set<(u128, u128)>,
    list: Seq<u128>,
    done: Set<u128>,
    cap: nat,
    p: int,
) -> Seq<u128> {
    slot_tasks(edges, list.take(p), done, cap)
}

/// Looking at one more entry of the list adds it to the slot if the slot has
/// room and the entry is ready, and changes nothing otherwise.
pub proof fn lemma_slot_prefix_step(
    edges: Set<(u128, u128)>,
    list: Seq<u128>,
    done: Set<u128>,
    cap: nat,
    p: int,
)
    requires
        0 <= p < list.len(),
    ensures
        slot_prefix(edges, list, done, cap, p).len() <= cap,
        slot_prefix(edges, list, done, cap, p + 1) == if slot_prefix(edges, list, done, cap, p).len()
            < cap && ready(edges, done, list[p]) {
            slot_prefix(edges, list, done, cap, p).push(list[p])
        } else {
            slot_prefix(edges, list, done, cap, p)
        },
{
    let pred = ready_pred(edges, done);
    let front = list.take(p);
    let r = front.filter(pred);
    assert(list.take(p + 1) =~= front.push(list[p]));
    front.lemma_filter_push(list[p], pred);
    let r2 = list.take(p + 1).filter(pred);
    let now = slot_prefix(edges, list, done, cap, p);
    let next = slot_prefix(edges, list, done, cap, p + 1);
    if pred(list[p]) {
        assert(r2 == r.push(list[p]));
        if cap < r.len() {
            assert(next =~= now);
        } else if cap == r.len() {
            assert(next =~= now);
        } else {
            assert(next =~= now.push(list[p]));
        }
    } else {
        assert(r2 == r);
    }
}

/// Once the whole list has been looked at, the slot is complete.
pub proof fn lemma_slot_prefix_all(edges: Set<(u128, u128)>, list: Seq<u128>, done: Set<u128>, cap: nat)
    ensures
        slot_prefix(edges, list, done, cap, list.len() as int) == slot_tasks(edges, list, done, cap),
        slot_prefix(edges, list, done, cap, 0) == Seq::<u128>::empty(),
{
    assert(list.take(list.len() as int) =~= list);
    let pred = ready_pred(edges, done);
    list.take(0).lemma_filter_len(pred);
    assert(slot_prefix(edges, list, done, cap, 0) =~= Seq::<u128>::empty());
}

/// What has run by slot `t` has still run by any later slot.
pub proof fn lemma_done_monotone(
    edges: Set<(u128, u128)>,
    list: Seq<u128>,
    profile: Seq<usize>,
    policy: ProfilePolicy,
    t1: nat,
    t2: nat,
)
    requires
        t1 <= t2,
    ensures
        done_before(edges, list, profile, policy, t1).subset_of(
            done_before(edges, list, profile, policy, t2),
        ),
    decreases t2,
{
    if t1 < t2 {
        lemma_done_monotone(edges, list, profile, policy, t1, (t2 - 1) as nat);
    }
}

/// Only tasks of the list ever run.
pub proof fn lemma_done_within(
    edges: Set<(u128, u128)>,
    list: Seq<u128>,
    profile: Seq<usize>,
    policy: ProfilePolicy,
    t: nat,
)
    requires
        list.no_duplicates(),
    ensures
        done_before(edges, list, profile, policy, t).subset_of(list.to_set()),
    decreases t,
{
    if t > 0 {
        let u = (t - 1) as nat;
        lemma_done_within(edges, list, profile, policy, u);
        let d = done_before(edges, list, profile, policy, u);
        let cap = capacity(profile, policy, t - 1);
        lemma_slot_tasks(edges, list, d, cap);
        let tasks = slot_tasks(edges, list, d, cap);
        assert forall|v: u128| done_before(edges, list, profile, policy, t).contains(
            v,
        ) implies list.to_set().contains(v) by {
            if !d.contains(v) {
                assert(tasks.contains(v));
                let i = choose|i: int| 0 <= i < tasks.len() && tasks[i] == v;
                assert(list.contains(tasks[i]));
            }
        }
    }
}

/// Whatever has run by slot `t` ran in one of the slots before it.
pub proof fn lemma_done_origin(
    edges: Set<(u128, u128)>,
    list: Seq<u128>,
    profile: Seq<usize>,
    policy: ProfilePolicy,
    t: nat,
    v: u128,
) -> (u: nat)
    requires
        done_before(edges, list, profile, policy, t).contains(v),
    ensures
        u < t,
        tasks_at(edges, list, profile, policy, u).contains(v),
    decreases t,
{
    let prev = (t - 1) as nat;
    if done_before(edges, list, profile, policy, prev).contains(v) {
        lemma_done_origin(edges, list, profile, policy, prev, v)
    } else {
        prev
    }
}

/// Where no slot from `t` on has any capacity, nothing more ever runs.
pub proof fn lemma_done_stuck(
    edges: Set<(u128, u128)>,
    list: Seq<u128>,
    profile: Seq<usize>,
    policy: ProfilePolicy,
    t: nat,
    t2: nat,
)
    requires
        t <= t2,
        forall|u: int| u >= t ==> capacity(profile, policy, u) == 0,
    ensures
        done_before(edges, list, profile, policy, t2) == done_before(edges, list, profile, policy, t),
    decreases t2,
{
    if t < t2 {
        let prev = (t2 - 1) as nat;
        lemma_done_stuck(edges, list, profile, policy, t, prev);
        let d = done_before(edges, list, profile, policy, prev);
        assert(capacity(profile, policy, prev as int) == 0);
        let tasks = slot_tasks(edges, list, d, 0);
        assert(tasks.len() == 0);
        assert(done_before(edges, list, profile, policy, t2) =~= d);
    }
}

/// A task is in the slot handed out exactly if it is among the slot's tasks.
pub proof fn lemma_slot_view_contains(tasks: Seq<u128>, cap: nat, v: u128)
    requires
        tasks.len() <= cap,
    ensures
        slot_view(tasks, cap).contains(Some(v)) <==> tasks.contains(v),
{
    let s = slot_view(tasks, cap);
    if s.contains(Some(v)) {
        let i = choose|i: int| 0 <= i < s.len() && s[i] == Some(v);
        assert(tasks[i] == v);
    }
    if tasks.contains(v) {
        let i = choose|i: int| 0 <= i < tasks.len() && tasks[i] == v;
        assert(s[i] == Some(v));
    }
}

/// Every greedy schedule keeps the invariants of a schedule: each node runs
/// exactly once, after all its predecessors, and no slot holds more than its
/// capacity.
pub proof fn law_greedy_schedule_is_valid(
    nodes: Set<u128>,
    edges: Set<(u128, u128)>,
    list: Seq<u128>,
    profile: Seq<usize>,
    policy: ProfilePolicy,
    s: Seq<Seq<Option<u128>>>,
)
    requires
        valid_graph(nodes, edges),
        is_priority_list(nodes, list),
        is_greedy_schedule(edges, nodes, list, profile, policy, s),
    ensures
        is_valid_schedule(nodes, edges, profile, policy, s),
{
    let len = s.len();
    assert forall|v: u128, t: int| #[trigger] placed_at(s, v, t) implies tasks_at(
        edges,
        list,
        profile,
        policy,
        t as nat,
    ).contains(v) && ready(edges, done_before(edges, list, profile, policy, t as nat), v)
        && nodes.contains(v) && done_before(edges, list, profile, policy, (t + 1) as nat).contains(
        v,
    ) by {
        let d = done_before(edges, list, profile, policy, t as nat);
        let cap = capacity(profile, policy, t);
        let tasks = tasks_at(edges, list, profile, policy, t as nat);
        lemma_slot_tasks(edges, list, d, cap);
        assert(s[t] == slot_view(tasks, cap));
        lemma_slot_view_contains(tasks, cap, v);
        let i = choose|i: int| 0 <= i < tasks.len() && tasks[i] == v;
        assert(ready(edges, d, tasks[i]));
        assert(list.contains(tasks[i]));
        assert(list.to_set().contains(v));
        assert(tasks.to_set().contains(v));
    }
    assert forall|v: u128| #[trigger] nodes.contains(v) implies exists|t: int| placed_at(s, v, t) by {
        let u = lemma_done_origin(edges, list, profile, policy, len, v);
        let d = done_before(edges, list, profile, policy, u);
        let cap = capacity(profile, policy, u as int);
        let tasks = tasks_at(edges, list, profile, policy, u);
        lemma_slot_tasks(edges, list, d, cap);
        assert(s[u as int] == slot_view(tasks, cap));
        lemma_slot_view_contains(tasks, cap, v);
        assert(placed_at(s, v, u as int));
    }
    assert forall|v: u128, t1: int, t2: int| #[trigger]
        placed_at(s, v, t1) && #[trigger] placed_at(s, v, t2) implies t1 == t2 by {
        if t1 < t2 {
            lemma_done_monotone(edges, list, profile, policy, (t1 + 1) as nat, t2 as nat);
        }
        if t2 < t1 {
            lemma_done_monotone(edges, list, profile, policy, (t2 + 1) as nat, t1 as nat);
        }
    }
    assert forall|t: int, i: int, j: int|
        0 <= t < s.len() && 0 <= i < j < s[t].len() && s[t][i] is Some implies #[trigger] s[t][i]
        != #[trigger] s[t][j] by {
        let d = done_before(edges, list, profile, policy, t as nat);
        let cap = capacity(profile, policy, t);
        let tasks = tasks_at(edges, list, profile, policy, t as nat);
        lemma_slot_tasks(edges, list, d, cap);
        assert(s[t] == slot_view(tasks, cap));
        if j < tasks.len() {
            assert(tasks[i] != tasks[j]);
        }
    }
    assert forall|p: u128, c: u128, tp: int, tc: int|
        edges.contains((p, c)) && #[trigger] placed_at(s, p, tp) && #[trigger] placed_at(
            s,
            c,
            tc,
        ) implies tp < tc by {
        let dc = done_before(edges, list, profile, policy, tc as nat);
        assert(ready(edges, dc, c));
        assert(dc.contains(p));
        let u = lemma_done_origin(edges, list, profile, policy, tc as nat, p);
        let d = done_before(edges, list, profile, policy, u);
        let cap = capacity(profile, policy, u as int);
        let tasks = tasks_at(edges, list, profile, policy, u);
        lemma_slot_tasks(edges, list, d, cap);
        assert(s[u as int] == slot_view(tasks, cap));
        lemma_slot_view_contains(tasks, cap, p);
        assert(placed_at(s, p, u as int));
        if tp < u as int {
            lemma_done_monotone(edges, list, profile, policy, (tp + 1) as nat, u);
        }
        if (u as int) < tp {
            lemma_done_monotone(edges, list, profile, policy, (u + 1) as nat, tp as nat);
        }
    }
    assert forall|t: int| 0 <= t < s.len() implies (#[trigger] s[t]).len() == capacity(
        profile,
        policy,
        t,
    ) by {
        assert(s[t] == slot_view(
            tasks_at(edges, list, profile, policy, t as nat),
            capacity(profile, policy, t),
        ));
    }
}

/// Two schedules that both meet the definition are the same schedule.
pub proof fn law_greedy_schedule_unique(
    nodes: Set<u128>,
    edges: Set<(u128, u128)>,
    list: Seq<u128>,
    profile: Seq<usize>,
    policy: ProfilePolicy,
    a: Seq<Seq<Option<u128>>>,
    b: Seq<Seq<Option<u128>>>,
)
    requires
        is_priority_list(nodes, list),
        is_greedy_schedule(edges, nodes, list, profile, policy, a),
        is_greedy_schedule(edges, nodes, list, profile, policy, b),
    ensures
        a == b,
{
    if a.len() < b.len() {
        lemma_done_monotone(edges, list, profile, policy, a.len(), (b.len() - 1) as nat);
        lemma_done_within(edges, list, profile, policy, (b.len() - 1) as nat);
        assert(done_before(edges, list, profile, policy, (b.len() - 1) as nat) =~= nodes);
    }
    if b.len() < a.len() {
        lemma_done_monotone(edges, list, profile, policy, b.len(), (a.len() - 1) as nat);
        lemma_done_within(edges, list, profile, policy, (a.len() - 1) as nat);
        assert(done_before(edges, list, profile, policy, (a.len() - 1) as nat) =~= nodes);
    }
    assert(a =~= b);
}

} // verus!
