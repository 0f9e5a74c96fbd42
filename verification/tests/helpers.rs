use precedence_scheduling::closure::{empty_matrix, set_entry};
use precedence_scheduling::nodeset::{find, insert, sorted_set};

#[test]
fn sorted_set_orders_and_drops_repetitions() {
    assert_eq!(sorted_set(&vec![3, 1, 2, 3, 1]), vec![1, 2, 3]);
    assert_eq!(sorted_set(&vec![]), Vec::<u128>::new());
    assert_eq!(sorted_set(&vec![9]), vec![9]);
}

#[test]
fn insert_keeps_the_order() {
    let mut v: Vec<u128> = vec![2, 4, 6];
    insert(&mut v, 5);
    assert_eq!(v, vec![2, 4, 5, 6]);
    insert(&mut v, 4);
    assert_eq!(v, vec![2, 4, 5, 6]);
    insert(&mut v, 1);
    insert(&mut v, 7);
    assert_eq!(v, vec![1, 2, 4, 5, 6, 7]);
}

#[test]
fn find_gives_the_position() {
    let v: Vec<u128> = vec![2, 4, 6, 8, 10];
    assert_eq!(find(&v, 2), Some(0));
    assert_eq!(find(&v, 6), Some(2));
    assert_eq!(find(&v, 10), Some(4));
    assert_eq!(find(&v, 1), None);
    assert_eq!(find(&v, 7), None);
    assert_eq!(find(&v, 11), None);
    assert_eq!(find(&vec![], 1), None);
}

#[test]
fn matrix_entries_are_switched_on_one_by_one() {
    let mut m = empty_matrix(3);
    assert_eq!(m, vec![vec![false; 3]; 3]);
    set_entry(&mut m, 1, 2);
    assert_eq!(
        m,
        vec![vec![false, false, false], vec![false, false, true], vec![false, false, false]]
    );
    assert_eq!(empty_matrix(0), Vec::<Vec<bool>>::new());
}
