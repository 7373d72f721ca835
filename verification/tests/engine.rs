use shuffle_lines::engine::ShuffleEngine;
use shuffle_lines::error::ShuffleError;
use shuffle_lines::state::Transfer;

#[test]
fn new_engine_waits_for_the_first_source() {
    let engine = ShuffleEngine::new(3, 2, 2, 0);
    assert_eq!(engine.next_source(), Some(0));
    assert!(!engine.is_done());
}

#[test]
fn engine_without_sources_is_done() {
    let engine = ShuffleEngine::new(0, 1, 1, 0);
    assert_eq!(engine.next_source(), None);
    assert!(engine.is_done());
}

#[test]
fn window_takes_sources_in_order_up_to_its_capacity() {
    let mut engine = ShuffleEngine::new(3, 1, 2, 0);
    assert_eq!(engine.next_source(), Some(0));
    engine.enter(vec![0]);
    assert_eq!(engine.next_source(), Some(1));
    engine.enter(vec![0]);
    assert_eq!(engine.next_source(), None);
    assert!(!engine.is_done());
}

#[test]
fn offsets_leave_from_the_end_of_the_index() {
    let mut engine = ShuffleEngine::new(1, 3, 1, 0);
    engine.enter(vec![10, 20, 30]);
    assert_eq!(
        engine.advance(0, 2),
        Ok(Transfer { source: 0, offset: 30, target: 2, exhausted: false })
    );
    assert_eq!(
        engine.advance(0, 0),
        Ok(Transfer { source: 0, offset: 20, target: 0, exhausted: false })
    );
    assert_eq!(
        engine.advance(0, 1),
        Ok(Transfer { source: 0, offset: 10, target: 1, exhausted: true })
    );
    assert!(engine.is_done());
}

#[test]
fn exhausted_source_makes_room_for_the_next() {
    let mut engine = ShuffleEngine::new(3, 2, 2, 0);
    engine.enter(vec![10, 20]);
    engine.enter(vec![30]);
    assert_eq!(
        engine.advance(0, 1),
        Ok(Transfer { source: 0, offset: 20, target: 1, exhausted: false })
    );
    assert_eq!(engine.next_source(), None);
    assert_eq!(
        engine.advance(1, 0),
        Ok(Transfer { source: 1, offset: 30, target: 0, exhausted: true })
    );
    assert_eq!(engine.next_source(), Some(2));
    engine.enter(vec![40]);
    assert_eq!(engine.next_source(), None);
    assert_eq!(
        engine.advance(1, 1),
        Ok(Transfer { source: 2, offset: 40, target: 1, exhausted: true })
    );
    assert!(!engine.is_done());
    assert_eq!(
        engine.advance(0, 0),
        Ok(Transfer { source: 0, offset: 10, target: 0, exhausted: true })
    );
    assert_eq!(engine.next_source(), None);
    assert!(engine.is_done());
}

#[test]
fn retiring_a_slot_keeps_the_order_of_the_others() {
    let mut engine = ShuffleEngine::new(3, 1, 3, 0);
    engine.enter(vec![1]);
    engine.enter(vec![2, 3]);
    engine.enter(vec![4, 5]);
    assert_eq!(
        engine.advance(0, 0),
        Ok(Transfer { source: 0, offset: 1, target: 0, exhausted: true })
    );
    assert_eq!(
        engine.advance(0, 0),
        Ok(Transfer { source: 1, offset: 3, target: 0, exhausted: false })
    );
    assert_eq!(
        engine.advance(1, 0),
        Ok(Transfer { source: 2, offset: 5, target: 0, exhausted: false })
    );
}

#[test]
fn slot_without_offsets_is_an_invariant_violation() {
    let mut engine = ShuffleEngine::new(2, 1, 2, 0);
    engine.enter(vec![7]);
    engine.enter(Vec::new());
    assert_eq!(engine.advance(1, 0), Err(ShuffleError::InvariantViolation { source: 1 }));
    assert_eq!(engine.advance(1, 0), Err(ShuffleError::InvariantViolation { source: 1 }));
    assert_eq!(
        engine.advance(0, 0),
        Ok(Transfer { source: 0, offset: 7, target: 0, exhausted: true })
    );
    assert!(!engine.is_done());
}

#[test]
fn step_picks_inside_the_window_and_the_targets() {
    for seed in 0u64..50 {
        let mut engine = ShuffleEngine::new(2, 3, 2, seed);
        engine.enter(vec![1, 2, 3]);
        engine.enter(vec![4, 5, 6]);
        let mut moved: Vec<(usize, u64)> = Vec::new();
        while !engine.is_done() {
            let made = engine.step().unwrap();
            assert!(made.source < 2);
            assert!(made.target < 3);
            moved.push((made.source, made.offset));
        }
        let from_first: Vec<u64> =
            moved.iter().filter(|pair| pair.0 == 0).map(|pair| pair.1).collect();
        let from_second: Vec<u64> =
            moved.iter().filter(|pair| pair.0 == 1).map(|pair| pair.1).collect();
        assert_eq!(from_first, vec![3u64, 2, 1]);
        assert_eq!(from_second, vec![6u64, 5, 4]);
    }
}

#[test]
fn step_with_one_slot_and_one_target_has_no_choice() {
    let mut engine = ShuffleEngine::new(1, 1, 1, 99);
    engine.enter(vec![8, 9]);
    assert_eq!(engine.step(), Ok(Transfer { source: 0, offset: 9, target: 0, exhausted: false }));
    assert_eq!(engine.step(), Ok(Transfer { source: 0, offset: 8, target: 0, exhausted: true }));
    assert!(engine.is_done());
}

#[test]
fn same_seed_makes_the_same_moves() {
    let mut left = ShuffleEngine::new(2, 4, 2, 1234);
    let mut right = ShuffleEngine::new(2, 4, 2, 1234);
    left.enter(vec![1, 2, 3, 4, 5]);
    left.enter(vec![6, 7, 8, 9, 10]);
    right.enter(vec![1, 2, 3, 4, 5]);
    right.enter(vec![6, 7, 8, 9, 10]);
    while !left.is_done() {
        assert_eq!(left.step(), right.step());
    }
    assert!(right.is_done());
}

#[test]
fn active_counts_the_window() {
    let mut engine = ShuffleEngine::new(3, 1, 2, 0);
    assert_eq!(engine.active(), 0);
    engine.enter(vec![1, 2]);
    assert_eq!(engine.active(), 1);
    engine.enter(vec![3]);
    assert_eq!(engine.active(), 2);
    engine.advance(1, 0).unwrap();
    assert_eq!(engine.active(), 1);
    engine.advance(0, 0).unwrap();
    assert_eq!(engine.active(), 1);
}
