use koto::ugen::util::{contains_u64, SharedSearch};

#[test]
fn a_unit_met_twice_is_shared_once() {
    let mut s = SharedSearch::new();
    assert!(s.meet(1));
    assert!(s.meet(2));
    assert!(!s.meet(1));
    assert!(!s.meet(1));
    assert_eq!(s.searched, vec![1, 2]);
    assert_eq!(s.shared, vec![1]);
    assert!(!s.meet(2));
    assert_eq!(s.shared, vec![1, 2]);
}

#[test]
fn a_tree_without_sharing_has_no_shared_units() {
    let mut s = SharedSearch::new();
    for u in [5u64, 3, 9, 0] {
        assert!(s.meet(u));
    }
    assert_eq!(s.searched, vec![5, 3, 9, 0]);
    assert!(s.shared.is_empty());
}

#[test]
fn shared_units_come_in_the_order_of_their_second_meeting() {
    let mut s = SharedSearch::new();
    for u in [1u64, 2, 3] {
        assert!(s.meet(u));
    }
    assert!(!s.meet(3));
    assert!(!s.meet(1));
    assert_eq!(s.shared, vec![3, 1]);
}

#[test]
fn contains_finds_an_item() {
    assert!(contains_u64(&vec![4, 7], 7));
    assert!(!contains_u64(&vec![4, 7], 5));
    assert!(!contains_u64(&vec![], 5));
}
