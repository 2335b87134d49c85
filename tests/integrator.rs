use in_one_weekend::integrator::{path_action, random_index, PathAction, TraceOutcome};

#[test]
fn depth_zero_is_black_whatever_the_outcome() {
    for outcome in [
        None,
        Some(TraceOutcome::Missed),
        Some(TraceOutcome::Absorbed),
        Some(TraceOutcome::Scattered),
    ] {
        assert_eq!(path_action(0, outcome), PathAction::Black);
        assert_eq!(path_action(-3, outcome), PathAction::Black);
        assert_eq!(path_action(i32::MIN, outcome), PathAction::Black);
    }
}

#[test]
fn each_outcome_has_its_action() {
    assert_eq!(path_action(5, None), PathAction::Trace);
    assert_eq!(path_action(5, Some(TraceOutcome::Missed)), PathAction::Background);
    assert_eq!(path_action(5, Some(TraceOutcome::Absorbed)), PathAction::Emitted);
    assert_eq!(path_action(5, Some(TraceOutcome::Scattered)), PathAction::Bounce(4));
    assert_eq!(path_action(1, Some(TraceOutcome::Scattered)), PathAction::Bounce(0));
    assert_eq!(path_action(i32::MAX, Some(TraceOutcome::Scattered)), PathAction::Bounce(i32::MAX - 1));
}

#[test]
fn a_path_ends_within_its_depth() {
    let mut depth = 50;
    let mut bounces = 0;
    loop {
        match path_action(depth, Some(TraceOutcome::Scattered)) {
            PathAction::Bounce(d) => {
                depth = d;
                bounces += 1;
            }
            PathAction::Black => break,
            other => panic!("unexpected {:?}", other),
        }
    }
    assert_eq!(bounces, 50);
}

#[test]
fn random_index_stays_below_count() {
    for count in [1usize, 2, 3, 7, 1000] {
        for _ in 0..200 {
            assert!(random_index(count) < count);
        }
    }
    assert_eq!(random_index(1), 0);
}
