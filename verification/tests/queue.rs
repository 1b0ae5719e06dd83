use sakurai::queue::next_slot;
use sakurai::queue::occupancy;
use sakurai::queue::pop_decision;
use sakurai::queue::push_decision;

#[test]
fn test_occupancy() {
    assert_eq!(occupancy(0, 0, 8), 0);
    assert_eq!(occupancy(3, 1, 8), 2);
    assert_eq!(occupancy(1, 6, 8), 3);
    assert_eq!(occupancy(7, 0, 8), 7);
}

#[test]
fn test_next_slot() {
    assert_eq!(next_slot(0, 8), 1);
    assert_eq!(next_slot(6, 8), 7);
    assert_eq!(next_slot(7, 8), 0);
}

#[test]
fn test_push_decision() {
    // Empty ring: the slot after the head is published.
    assert_eq!(push_decision(0, 0, 4), Some(1));
    // One slot always stays free: three items fill a ring of four.
    assert_eq!(push_decision(3, 0, 4), None);
    assert_eq!(push_decision(1, 2, 4), None);
    // Wrapping past the end of the ring.
    assert_eq!(push_decision(3, 1, 4), Some(0));
}

#[test]
fn test_pop_decision() {
    // An empty ring has nothing to pop.
    assert_eq!(pop_decision(0, 0, 4), None);
    assert_eq!(pop_decision(2, 2, 4), None);
    // Popping publishes the slot after the tail.
    assert_eq!(pop_decision(2, 0, 4), Some(1));
    assert_eq!(pop_decision(1, 3, 4), Some(0));
}

#[test]
fn test_push_pop_cycle() {
    // Walking head and tail through full cycles keeps the occupancy exact.
    let n = 4usize;
    let mut head = 0usize;
    let mut tail = 0usize;
    for _ in 0..3 {
        for _ in 0..3 {
            head = push_decision(head, tail, n).unwrap();
        }
        assert_eq!(occupancy(head, tail, n), 3);
        assert_eq!(push_decision(head, tail, n), None);
        for _ in 0..3 {
            tail = pop_decision(head, tail, n).unwrap();
        }
        assert_eq!(occupancy(head, tail, n), 0);
        assert_eq!(pop_decision(head, tail, n), None);
    }
}
