use lib::disjunctive::{disjunctive, DisjunctivePropagator};
use lib::engine::{Assignments, EnqueueDecision, Inconsistency, Predicate, Watchers};

#[test]
fn overload_is_reported_as_conflict() {
    let mut solver = Assignments::new();
    let t1 = solver.new_variable(0, 0);
    let t2 = solver.new_variable(0, 2);

    let mut propagator = DisjunctivePropagator::from_vectors(vec![t1, t2], vec![5, 5]);
    let result = propagator.propagate(&mut solver);

    match result {
        Err(Inconsistency::Conflict(reason)) => {
            assert_eq!(
                reason,
                vec![
                    Predicate::LowerBound { domain: 0, bound: 0 },
                    Predicate::UpperBound { domain: 0, bound: 4 },
                    Predicate::LowerBound { domain: 1, bound: 0 },
                    Predicate::UpperBound { domain: 1, bound: 4 },
                ]
            );
        }
        other => panic!("expected a conflict, got {:?}", other),
    }
    // A conflict leaves the bounds as they were.
    assert_eq!(solver.lower_bound(t1), 0);
    assert_eq!(solver.upper_bound(t1), 0);
    assert_eq!(solver.lower_bound(t2), 0);
    assert_eq!(solver.upper_bound(t2), 2);
}

#[test]
fn forced_overlap_empties_a_domain() {
    let mut solver = Assignments::new();
    let x5 = solver.new_variable(81, 88);
    let x7 = solver.new_variable(2, 43);
    let x8 = solver.new_variable(6, 47);
    let x12 = solver.new_variable(3, 73);
    let x13 = solver.new_variable(9, 82);
    let x14 = solver.new_variable(85, 85);
    let x20 = solver.new_variable(19, 90);

    let tasks = vec![x5, x7, x8, x12, x13, x14, x20];
    let durations = vec![6, 4, 5, 6, 3, 4, 4];

    let mut propagator = DisjunctivePropagator::from_vectors(tasks, durations);
    let result = propagator.propagate(&mut solver);
    assert!(matches!(result, Err(Inconsistency::EmptyDomain)));
}

#[test]
fn mirrored_pass_lowers_an_upper_bound() {
    let mut solver = Assignments::new();
    let t1 = solver.new_variable(0, 10);
    let t2 = solver.new_variable(8, 8);

    let mut propagator = DisjunctivePropagator::from_vectors(vec![t1, t2], vec![5, 5]);
    let result = propagator.propagate(&mut solver);
    assert!(result.is_ok());

    assert_eq!(solver.lower_bound(t1), 0);
    assert_eq!(solver.upper_bound(t1), 3);
    assert_eq!(solver.lower_bound(t2), 8);
    assert_eq!(solver.upper_bound(t2), 8);
}

#[test]
fn propagation_from_scratch_agrees() {
    let mut first = Assignments::new();
    let a1 = first.new_variable(0, 3);
    let a2 = first.new_variable(2, 4);
    let mut second = Assignments::new();
    let b1 = second.new_variable(0, 3);
    let b2 = second.new_variable(2, 4);

    let mut propagator = DisjunctivePropagator::from_vectors(vec![a1, a2], vec![5, 1]);
    let other = DisjunctivePropagator::from_vectors(vec![b1, b2], vec![5, 1]);

    assert!(propagator.propagate(&mut first).is_ok());
    assert!(other.debug_propagate_from_scratch(&mut second).is_ok());

    assert_eq!(first.lower_bound(a1), 3);
    assert_eq!(second.lower_bound(b1), 3);
    assert_eq!(first.upper_bound(a1), second.upper_bound(b1));
    assert_eq!(first.lower_bound(a2), second.lower_bound(b2));
    assert_eq!(first.upper_bound(a2), second.upper_bound(b2));
}

#[test]
fn propagation_reaches_a_fixpoint_on_a_feasible_pair() {
    let mut solver = Assignments::new();
    let v1 = solver.new_variable(0, 3);
    let v2 = solver.new_variable(2, 4);

    let mut propagator = DisjunctivePropagator::from_vectors(vec![v1, v2], vec![5, 1]);
    assert!(propagator.propagate(&mut solver).is_ok());
    let after_first = (
        solver.lower_bound(v1),
        solver.upper_bound(v1),
        solver.lower_bound(v2),
        solver.upper_bound(v2),
    );
    assert!(propagator.propagate(&mut solver).is_ok());
    let after_second = (
        solver.lower_bound(v1),
        solver.upper_bound(v1),
        solver.lower_bound(v2),
        solver.upper_bound(v2),
    );
    assert_eq!(after_first, after_second);
}

#[test]
fn constraint_holds_tasks_and_their_mirrors() {
    let mut solver = Assignments::new();
    let s0 = solver.new_variable(0, 10);
    let s1 = solver.new_variable(3, 7);

    let constraint = disjunctive(vec![s0, s1], vec![4, 2]);
    assert_eq!(constraint.tasks.len(), 2);
    assert_eq!(constraint.reverse_tasks.len(), 2);

    assert_eq!(constraint.tasks[1].start_times.domain, 1);
    assert_eq!(constraint.tasks[1].duration, 2);
    assert_eq!(constraint.tasks[1].local_id, 1);

    let mirror = constraint.reverse_tasks[1];
    assert_eq!(mirror.start_times.domain, 1);
    assert!(mirror.start_times.negated);
    assert_eq!(mirror.start_times.offset, -2);
    assert_eq!(mirror.duration, 2);
    assert_eq!(mirror.local_id, 1);
    // The mirrored start runs from -(7 + 2) to -(3 + 2).
    assert_eq!(solver.lower_bound(mirror.start_times), -9);
    assert_eq!(solver.upper_bound(mirror.start_times), -5);

    let propagator = constraint.into_propagator();
    assert_eq!(propagator.tasks.len(), 2);
    assert_eq!(propagator.name(), "Disjunctive-Edge-Finding");
}

#[test]
fn known_schedules_survive_propagation() {
    let mut solver = Assignments::new();
    let t1 = solver.new_variable(0, 10);
    let t2 = solver.new_variable(2, 4);
    let t3 = solver.new_variable(11, 15);
    let t4 = solver.new_variable(21, 30);
    let t5 = solver.new_variable(24, 25);
    let t6 = solver.new_variable(31, 40);
    let vars = vec![t1, t2, t3, t4, t5, t6];
    let durations = vec![5, 3, 10, 5, 3, 20];
    // One schedule without overlap: t2, t1, t3, t5, t4, t6 one after the other.
    let schedule = vec![5, 2, 11, 27, 24, 32];

    let mut propagator = DisjunctivePropagator::from_vectors(vars.clone(), durations);
    assert!(propagator.propagate(&mut solver).is_ok());
    for (v, s) in vars.iter().zip(schedule.iter()) {
        assert!(solver.lower_bound(*v) <= *s && *s <= solver.upper_bound(*v));
    }
    // t2 must come first, so t1 cannot start before t2 completes.
    assert_eq!(solver.lower_bound(t1), 5);
}

#[test]
fn fixed_tasks_are_decided() {
    let mut apart = Assignments::new();
    let a = apart.new_variable(0, 0);
    let b = apart.new_variable(5, 5);
    let c = apart.new_variable(12, 12);
    let mut propagator = DisjunctivePropagator::from_vectors(vec![a, b, c], vec![5, 7, 1]);
    assert!(propagator.propagate(&mut apart).is_ok());

    let mut overlapping = Assignments::new();
    let a = overlapping.new_variable(0, 0);
    let b = overlapping.new_variable(3, 3);
    let c = overlapping.new_variable(12, 12);
    let mut propagator = DisjunctivePropagator::from_vectors(vec![a, b, c], vec![5, 5, 1]);
    assert!(propagator.propagate(&mut overlapping).is_err());

    // A task of no duration may touch another one, but not sit inside it.
    let mut touching = Assignments::new();
    let a = touching.new_variable(0, 0);
    let b = touching.new_variable(10, 10);
    let c = touching.new_variable(0, 0);
    let mut propagator = DisjunctivePropagator::from_vectors(vec![a, b, c], vec![10, 0, 0]);
    assert!(propagator.propagate(&mut touching).is_ok());

    let mut inside = Assignments::new();
    let a = inside.new_variable(0, 0);
    let b = inside.new_variable(5, 5);
    let mut propagator = DisjunctivePropagator::from_vectors(vec![a, b], vec![10, 0]);
    assert!(propagator.propagate(&mut inside).is_err());
}

#[test]
fn start_times_are_watched_for_bound_changes() {
    let mut solver = Assignments::new();
    let _unused = solver.new_variable(0, 1);
    let t1 = solver.new_variable(0, 10);
    let t2 = solver.new_variable(3, 7);

    let mut propagator = DisjunctivePropagator::from_vectors(vec![t1, t2], vec![4, 2]);
    let mut watchers = Watchers::new();
    assert!(propagator.initialise_at_root(&mut watchers).is_ok());
    assert_eq!(watchers.len(), 2);
    assert_eq!(watchers.get(0), (1, 0));
    assert_eq!(watchers.get(1), (2, 1));

    assert_eq!(propagator.notify(1), EnqueueDecision::Enqueue);
}

#[test]
fn raised_bounds_are_explained() {
    let mut solver = Assignments::new();
    let v1 = solver.new_variable(0, 3);
    let v2 = solver.new_variable(2, 4);

    let mut propagator = DisjunctivePropagator::from_vectors(vec![v1, v2], vec![5, 1]);
    assert!(propagator.propagate(&mut solver).is_ok());
    assert_eq!(solver.num_explanations(), 2);

    // v1 cannot start before v2 completes: [v1 >= 3] because v2 runs in [2, 4 + 1) and v1
    // starts at 0 or later.
    let (first, first_reason) = solver.explanation(0);
    assert_eq!(*first, Predicate::LowerBound { domain: 0, bound: 3 });
    assert_eq!(
        *first_reason,
        vec![
            Predicate::LowerBound { domain: 1, bound: 2 },
            Predicate::UpperBound { domain: 1, bound: 4 },
            Predicate::LowerBound { domain: 0, bound: 0 },
        ]
    );

    // Mirrored: with v1 fixed at 3, v2 must complete by 3.
    let (second, second_reason) = solver.explanation(1);
    assert_eq!(*second, Predicate::UpperBound { domain: 1, bound: 2 });
    assert_eq!(
        *second_reason,
        vec![
            Predicate::UpperBound { domain: 0, bound: 3 },
            Predicate::LowerBound { domain: 0, bound: 3 },
            Predicate::UpperBound { domain: 1, bound: 7 },
        ]
    );
    assert_eq!(solver.upper_bound(v2), 2);
}

#[test]
fn no_tasks_propagate_to_nothing() {
    let mut solver = Assignments::new();
    let x = solver.new_variable(3, 7);
    let constraint = disjunctive(Vec::new(), Vec::new());
    let mut propagator = constraint.into_propagator();
    assert!(propagator.propagate(&mut solver).is_ok());
    assert!(propagator.debug_propagate_from_scratch(&mut solver).is_ok());
    assert_eq!((solver.lower_bound(x), solver.upper_bound(x)), (3, 7));
    assert_eq!(solver.num_explanations(), 0);
}

#[test]
fn overload_can_come_before_a_pending_raise() {
    // With theta = {w, y}, theta overruns the latest completion of w, and the rule would
    // also push i past its latest start. The search for the responsible task ends at a
    // task of theta, so the overload is what is reported.
    let mut solver = Assignments::new();
    let i = solver.new_variable(0, 12);
    let w = solver.new_variable(8, 9);
    let y = solver.new_variable(8, 8);
    let mut propagator = DisjunctivePropagator::from_vectors(vec![i, w, y], vec![8, 5, 5]);
    let result = propagator.propagate(&mut solver);
    assert!(matches!(result, Err(Inconsistency::Conflict(_))));
}

#[test]
fn large_bounds_propagate() {
    let mut solver = Assignments::new();
    let v1 = solver.new_variable(100_000_000, 100_000_003);
    let v2 = solver.new_variable(100_000_002, 100_000_004);
    let mut propagator = DisjunctivePropagator::from_vectors(vec![v1, v2], vec![5, 1]);
    assert!(propagator.propagate(&mut solver).is_ok());
    assert_eq!(solver.lower_bound(v1), 100_000_003);
    assert_eq!(solver.upper_bound(v2), 100_000_002);
}

#[test]
fn raises_at_one_theta_come_largest_first() {
    let mut solver = Assignments::new();
    let x = solver.new_variable(0, 0);
    let y = solver.new_variable(0, 10);
    let z = solver.new_variable(0, 20);

    let mut propagator = DisjunctivePropagator::from_vectors(vec![x, y, z], vec![4, 2, 3]);
    assert!(propagator.propagate(&mut solver).is_ok());

    // With theta = {x} (completing by 4), z would complete with it at 7 and y at 6: both
    // must start after x, z first.
    assert_eq!(solver.num_explanations(), 2);
    assert_eq!(solver.explanation(0).0, Predicate::LowerBound { domain: 2, bound: 4 });
    assert_eq!(solver.explanation(1).0, Predicate::LowerBound { domain: 1, bound: 4 });
    assert_eq!(solver.lower_bound(y), 4);
    assert_eq!(solver.upper_bound(y), 10);
    assert_eq!(solver.lower_bound(z), 4);
    assert_eq!(solver.upper_bound(z), 20);
}
