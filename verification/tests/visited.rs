use rinnd::visited::VisitedSet;

#[test]
fn test_basic_operations() {
    let mut visited = VisitedSet::new(100);

    assert!(!visited.is_visited(0));
    assert!(!visited.is_visited(50));
    assert!(!visited.is_visited(99));

    visited.mark(50);
    assert!(!visited.is_visited(0));
    assert!(visited.is_visited(50));
    assert!(!visited.is_visited(99));
}

#[test]
fn test_check_and_mark() {
    let mut visited = VisitedSet::new(100);

    // First check should return false and mark
    assert!(!visited.check_and_mark(42));

    // Second check should return true (already visited)
    assert!(visited.check_and_mark(42));

    // Different index should return false
    assert!(!visited.check_and_mark(43));
}

#[test]
fn test_clear() {
    let mut visited = VisitedSet::new(100);

    visited.mark(10);
    visited.mark(20);
    visited.mark(30);

    assert!(visited.is_visited(10));
    assert!(visited.is_visited(20));
    assert!(visited.is_visited(30));

    visited.clear();

    assert!(!visited.is_visited(10));
    assert!(!visited.is_visited(20));
    assert!(!visited.is_visited(30));
}

#[test]
fn test_boundary_indices() {
    let mut visited = VisitedSet::new(256);

    // Test byte boundaries
    for i in [0, 7, 8, 15, 16, 255] {
        assert!(!visited.check_and_mark(i));
        assert!(visited.is_visited(i));
    }
}

#[test]
fn test_clear_handles_epoch_overflow() {
    let mut visited = VisitedSet::new(16);
    visited.mark(7);
    visited.epoch = u16::MAX;
    visited.epochs[3] = u16::MAX;

    visited.clear();

    assert_eq!(visited.epoch, 1);
    assert!(visited.epochs.iter().all(|&epoch| epoch == 0));
    assert!(!visited.is_visited(3));
    assert!(!visited.is_visited(7));
}

#[test]
fn test_large_set() {
    let mut visited = VisitedSet::new(1_000_000);

    // Mark every 1000th element
    for i in (0..1_000_000).step_by(1000) {
        visited.mark(i as i32);
    }

    // Verify
    for i in 0..1_000_000 {
        let expected = i % 1000 == 0;
        assert_eq!(visited.is_visited(i as i32), expected);
    }
}

#[test]
fn a_cloned_set_is_independent() {
    let mut visited = VisitedSet::new(8);
    visited.mark(2);
    let copy = visited.clone();
    visited.clear();
    assert!(copy.is_visited(2));
    assert!(!visited.is_visited(2));
    assert_eq!(copy.capacity(), 8);
}
