use gsim::{new_new_commutator, new_old_commutators};

#[test]
fn new_old_pairs_take_each_new_element_against_every_old_one() {
    let pairs = new_old_commutators(&vec![10, 11], &vec![1, 2, 3]);
    assert_eq!(pairs, vec![(1, 10), (2, 10), (3, 10), (1, 11), (2, 11), (3, 11)]);
}

#[test]
fn new_old_pairs_of_empty_groups_are_empty() {
    assert_eq!(new_old_commutators(&vec![], &vec![1, 2]), vec![]);
    assert_eq!(new_old_commutators(&vec![4], &vec![]), vec![]);
}

#[test]
fn new_new_pairs_are_lexicographic() {
    let pairs = new_new_commutator(&vec![5, 6, 7, 8]);
    assert_eq!(pairs, vec![(5, 6), (5, 7), (5, 8), (6, 7), (6, 8), (7, 8)]);
}

#[test]
fn new_new_pairs_follow_positions_not_values() {
    let pairs = new_new_commutator(&vec![9, 3, 7]);
    assert_eq!(pairs, vec![(9, 3), (9, 7), (3, 7)]);
}

#[test]
fn new_new_pairs_of_fewer_than_two_are_empty() {
    assert_eq!(new_new_commutator(&vec![]), vec![]);
    assert_eq!(new_new_commutator(&vec![4]), vec![]);
}
