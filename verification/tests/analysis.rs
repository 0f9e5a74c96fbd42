use precedence_scheduling::graph::PrecedenceGraph;
use precedence_scheduling::msf::SuccessorCount;
use precedence_scheduling::schedule::{ProfilePolicy, ScheduleError};

fn graph(nodes: Vec<u128>, edges: Vec<(u128, u128)>) -> PrecedenceGraph {
    match PrecedenceGraph::new(nodes, edges) {
        Ok(g) => g,
        Err(e) => panic!("no graph: {:?}", e),
    }
}

fn sorted(mut v: Vec<u128>) -> Vec<u128> {
    v.sort();
    v
}

fn tasks(slot: &[Option<u128>]) -> Vec<u128> {
    slot.iter().filter_map(|e| *e).collect()
}

#[test]
fn edgeless_graph_is_an_interval_order() {
    assert!(graph(vec![], vec![]).is_quasi_interval_order());
    assert!(graph(vec![4], vec![]).is_quasi_interval_order());
    assert!(graph(vec![1, 2, 3, 4, 5, 6], vec![]).is_quasi_interval_order());
}

#[test]
fn two_parallel_chains_are_no_interval_order() {
    assert!(!graph(vec![1, 2, 3, 4], vec![(1, 2), (3, 4)]).is_quasi_interval_order());
    assert!(!graph(vec![1, 2, 3, 4, 5], vec![(5, 1), (1, 2), (5, 3), (3, 4)]).is_quasi_interval_order());
}

#[test]
fn crossing_chains_are_an_interval_order() {
    assert!(graph(vec![1, 2, 3, 4], vec![(1, 2), (3, 4), (1, 4)]).is_quasi_interval_order());
    assert!(graph(vec![1, 2, 3], vec![(1, 2), (2, 3)]).is_quasi_interval_order());
    assert!(graph(vec![1, 2, 3], vec![(1, 2), (1, 3)]).is_quasi_interval_order());
}

#[test]
fn parallel_chains_are_found_through_the_closure() {
    let g = graph(vec![1, 2, 3, 4, 5, 6], vec![(1, 2), (2, 3), (4, 5), (5, 6)]);
    assert!(!g.is_quasi_interval_order());
}

#[test]
fn fan_in_is_classified_the_same_in_any_order() {
    let a = graph(vec![1, 3, 2], vec![(1, 3), (2, 3)]).is_quasi_interval_order();
    let b = graph(vec![3, 2, 1], vec![(2, 3), (1, 3)]).is_quasi_interval_order();
    let c = graph(vec![2, 3, 1, 3], vec![(2, 3), (1, 3), (2, 3)]).is_quasi_interval_order();
    assert!(a);
    assert_eq!(a, b);
    assert_eq!(a, c);
}

#[test]
fn msf_ranks_by_successors_then_identifier() {
    let g = graph(vec![1, 2, 3], vec![(1, 2), (1, 3)]);
    assert_eq!(g.msf_list(), vec![1, 2, 3]);
    let h = graph(vec![1, 2, 3, 4, 5], vec![(4, 1), (4, 2), (5, 3), (3, 1)]);
    assert_eq!(h.successor_counts(SuccessorCount::Immediate), vec![0, 0, 1, 2, 1]);
    assert_eq!(h.msf_list(), vec![4, 3, 5, 1, 2]);
}

#[test]
fn msf_counts_immediate_or_all_successors() {
    let g = graph(
        vec![1, 2, 3, 4, 5, 6, 7],
        vec![(1, 2), (2, 3), (2, 4), (5, 6), (5, 7)],
    );
    assert_eq!(g.successor_counts(SuccessorCount::Immediate), vec![1, 2, 0, 0, 2, 0, 0]);
    assert_eq!(g.successor_counts(SuccessorCount::Transitive), vec![3, 2, 0, 0, 2, 0, 0]);
    assert_eq!(g.msf_list_by(SuccessorCount::Immediate), vec![2, 5, 1, 3, 4, 6, 7]);
    assert_eq!(g.msf_list_by(SuccessorCount::Transitive), vec![1, 2, 5, 3, 4, 6, 7]);
    assert_eq!(g.msf_list(), g.msf_list_by(SuccessorCount::Immediate));
}

#[test]
fn coffman_graham_labels_from_the_sinks() {
    let g = graph(vec![1, 2, 3], vec![(1, 2), (1, 3)]);
    assert_eq!(g.cg_labeling(), vec![2, 3, 1]);
    assert_eq!(g.cg_list(), vec![1, 3, 2]);
}

#[test]
fn coffman_graham_compares_label_sequences() {
    // 5 and 6 are sinks and get the labels 1 and 2. Then 3 (successor labels
    // [1]) comes before 4 (labels [2]), and 1 (labels [3]) before 2 (labels
    // [4, 3]).
    let g = graph(
        vec![1, 2, 3, 4, 5, 6],
        vec![(3, 5), (4, 6), (1, 3), (2, 3), (2, 4)],
    );
    assert_eq!(g.cg_labeling(), vec![5, 6, 3, 4, 1, 2]);
    assert_eq!(g.cg_list(), vec![2, 1, 4, 3, 6, 5]);
}

#[test]
fn coffman_graham_prefers_the_shorter_sequence() {
    // 3 and 4 are sinks with the labels 1 and 2; 1 has the successor labels
    // [2], 2 has [2, 1]: the shorter sequence is the smaller.
    let g = graph(vec![1, 2, 3, 4], vec![(1, 4), (2, 4), (2, 3)]);
    assert_eq!(g.cg_labeling(), vec![3, 4, 1, 2]);
    // Here 1 has [1] and 2 has [2]: the smaller label wins over the
    // smaller identifier only where the sequences differ.
    let h = graph(vec![1, 2, 3, 4], vec![(2, 3), (1, 4)]);
    assert_eq!(h.cg_labeling(), vec![3, 4, 2, 1]);
}

#[test]
fn priority_lists_are_permutations_of_the_nodes() {
    let nodes: Vec<u128> = vec![10, 20, 30, 40, 50, 60, 70];
    let edges = vec![(10, 30), (20, 30), (30, 40), (30, 50), (60, 70), (10, 70)];
    let g = graph(nodes.clone(), edges);
    assert_eq!(sorted(g.msf_list()), nodes);
    assert_eq!(sorted(g.msf_list_by(SuccessorCount::Transitive)), nodes);
    assert_eq!(sorted(g.cg_list()), nodes);
    assert!(g.is_priority_list_of(&g.msf_list()));
    assert!(g.is_priority_list_of(&g.cg_list()));
    assert!(!g.is_priority_list_of(&vec![10, 20, 30, 40, 50, 60]));
    assert!(!g.is_priority_list_of(&vec![10, 20, 30, 40, 50, 60, 60]));
    assert!(!g.is_priority_list_of(&vec![10, 20, 30, 40, 50, 60, 71]));
    assert!(g.is_priority_list_of(&vec![70, 60, 50, 40, 30, 20, 10]));
}

#[test]
fn analyses_give_the_same_result_again() {
    let g = graph(vec![1, 2, 3, 4, 5], vec![(1, 3), (2, 3), (3, 4), (2, 5)]);
    assert_eq!(g.msf_list(), g.msf_list());
    assert_eq!(g.cg_list(), g.cg_list());
    assert_eq!(g.is_quasi_interval_order(), g.is_quasi_interval_order());
    assert_eq!(g.msf_schedule(&vec![2]), g.msf_schedule(&vec![2]));
    assert_eq!(g.cg_schedule(&vec![1, 2]), g.cg_schedule(&vec![1, 2]));
}

#[test]
fn schedule_of_a_fork() {
    let g = graph(vec![1, 2, 3], vec![(1, 2), (1, 3)]);
    assert_eq!(
        g.msf_schedule(&vec![1, 2]),
        Ok(vec![vec![Some(1)], vec![Some(2), Some(3)]])
    );
}

#[test]
fn schedule_of_a_chain_under_either_strategy() {
    let g = graph(vec![1, 2, 3], vec![(1, 2), (2, 3)]);
    let expected = Ok(vec![vec![Some(1)], vec![Some(2)], vec![Some(3)]]);
    assert_eq!(g.msf_schedule(&vec![1, 1, 1]), expected);
    assert_eq!(g.cg_schedule(&vec![1, 1, 1]), expected);
}

#[test]
fn idle_processors_are_shown() {
    let g = graph(vec![1, 2, 3], vec![(1, 2), (2, 3)]);
    assert_eq!(
        g.msf_schedule(&vec![2, 3, 1]),
        Ok(vec![vec![Some(1), None], vec![Some(2), None, None], vec![Some(3)]])
    );
}

#[test]
fn the_last_capacity_is_repeated() {
    let g = graph(vec![1, 2, 3, 4], vec![(1, 2), (2, 3), (3, 4)]);
    assert_eq!(
        g.msf_schedule(&vec![2]),
        Ok(vec![
            vec![Some(1), None],
            vec![Some(2), None],
            vec![Some(3), None],
            vec![Some(4), None]
        ])
    );
}

#[test]
fn a_slot_without_processors_stays_empty() {
    let g = graph(vec![1, 2], vec![(1, 2)]);
    assert_eq!(
        g.msf_schedule(&vec![0, 1, 0, 1]),
        Ok(vec![vec![], vec![Some(1)], vec![], vec![Some(2)]])
    );
}

#[test]
fn priority_decides_among_ready_tasks() {
    let g = graph(vec![1, 2, 3, 4], vec![(3, 4)]);
    assert_eq!(g.msf_list(), vec![3, 1, 2, 4]);
    assert_eq!(
        g.msf_schedule(&vec![2]),
        Ok(vec![vec![Some(3), Some(1)], vec![Some(2), Some(4)]])
    );
    assert_eq!(
        g.schedule(&vec![4, 2, 1, 3], &vec![2], ProfilePolicy::RepeatLast),
        Ok(vec![vec![Some(2), Some(1)], vec![Some(3), None], vec![Some(4), None]])
    );
}

#[test]
fn a_task_is_not_ready_in_the_slot_of_its_predecessor() {
    let g = graph(vec![1, 2], vec![(1, 2)]);
    assert_eq!(
        g.schedule(&vec![2, 1], &vec![5], ProfilePolicy::RepeatLast),
        Ok(vec![
            vec![Some(1), None, None, None, None],
            vec![Some(2), None, None, None, None]
        ])
    );
}

#[test]
fn empty_graph_needs_no_slot() {
    let g = graph(vec![], vec![]);
    assert_eq!(g.msf_schedule(&vec![]), Ok(vec![]));
    assert_eq!(g.cg_schedule(&vec![3, 0]), Ok(vec![]));
    assert_eq!(g.schedule(&vec![], &vec![], ProfilePolicy::Finite), Ok(vec![]));
}

#[test]
fn no_profile_is_an_empty_profile() {
    let g = graph(vec![1], vec![]);
    assert_eq!(g.msf_schedule(&vec![]), Err(ScheduleError::EmptyProfile));
    assert_eq!(g.cg_schedule(&vec![]), Err(ScheduleError::EmptyProfile));
}

#[test]
fn a_profile_that_ends_without_processors_fails_if_tasks_remain() {
    let g = graph(vec![1, 2, 3], vec![(1, 2), (2, 3)]);
    assert_eq!(g.msf_schedule(&vec![1, 0]), Err(ScheduleError::EmptyProfile));
    assert_eq!(g.msf_schedule(&vec![0]), Err(ScheduleError::EmptyProfile));
    assert_eq!(
        g.msf_schedule(&vec![1, 1, 1, 0]),
        Ok(vec![vec![Some(1)], vec![Some(2)], vec![Some(3)]])
    );
}

#[test]
fn a_finite_profile_is_not_extended() {
    let g = graph(vec![1, 2, 3], vec![(1, 2), (2, 3)]);
    let list = g.msf_list();
    assert_eq!(
        g.schedule(&list, &vec![1, 1], ProfilePolicy::Finite),
        Err(ScheduleError::EmptyProfile)
    );
    assert_eq!(
        g.schedule(&list, &vec![1, 1, 1], ProfilePolicy::Finite),
        Ok(vec![vec![Some(1)], vec![Some(2)], vec![Some(3)]])
    );
    assert_eq!(
        g.schedule(&list, &vec![1, 1], ProfilePolicy::RepeatLast),
        Ok(vec![vec![Some(1)], vec![Some(2)], vec![Some(3)]])
    );
}

#[test]
fn schedules_keep_their_invariants() {
    let nodes: Vec<u128> = (1..=9).collect();
    let edges = vec![(1, 4), (2, 4), (3, 5), (4, 6), (5, 6), (6, 7), (2, 8), (8, 9), (1, 9)];
    let g = graph(nodes.clone(), edges.clone());
    let profile = vec![2, 1, 3];
    for schedule in [g.msf_schedule(&profile), g.cg_schedule(&profile)] {
        let slots = match schedule {
            Ok(s) => s,
            Err(e) => panic!("no schedule: {:?}", e),
        };
        let mut seen: Vec<u128> = Vec::new();
        for (t, slot) in slots.iter().enumerate() {
            let capacity = if t < profile.len() { profile[t] } else { profile[profile.len() - 1] };
            assert_eq!(slot.len(), capacity);
            assert!(tasks(slot).len() <= capacity);
            seen.extend(tasks(slot));
        }
        assert_eq!(sorted(seen), nodes);
        let slot_of = |v: u128| slots.iter().position(|s| s.contains(&Some(v)));
        for (p, s) in edges.iter() {
            assert!(slot_of(*p) < slot_of(*s));
        }
        assert!(!tasks(&slots[slots.len() - 1]).is_empty());
    }
}
