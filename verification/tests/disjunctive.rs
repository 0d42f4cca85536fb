use lib::disjunctive::DisjunctivePropagator;
use lib::engine::{Assignments, Inconsistency};

#[test]
fn test_propagate_success() {
    let mut solver = Assignments::new();
    let v1 = solver.new_variable(0, 3);
    let d1 = 5;
    let v2 = solver.new_variable(2, 4);
    let d2 = 1;

    let start_times = vec![v1, v2];
    let durations = vec![d1, d2];

    let mut propagator = DisjunctivePropagator::from_vectors(start_times, durations);
    propagator.propagate(&mut solver).expect("fail");

    let result = propagator.propagate(&mut solver);
    assert!(result.is_ok(), "Propagation failed: {:?}", result);
}

#[test]
fn test_propagate_variable_update() {
    let mut solver = Assignments::new();
    let v1 = solver.new_variable(0, 3);
    let d1 = 5;
    let v2 = solver.new_variable(2, 4);
    let d2 = 1;

    let start_times = vec![v1, v2];
    let durations = vec![d1, d2];

    assert_eq!(solver.lower_bound(v1), 0);
    assert_eq!(solver.lower_bound(v2), 2);

    let mut propagator = DisjunctivePropagator::from_vectors(start_times, durations);
    propagator.propagate(&mut solver).expect("fail");

    propagator.propagate(&mut solver).expect("panic");
    assert_eq!(solver.lower_bound(v1), 3);
}

#[test]
fn check_propagate_large() {
    let mut solver = Assignments::new();
    let t1 = solver.new_variable(0, 10);
    let t2 = solver.new_variable(2, 4);
    let t3 = solver.new_variable(11, 15);
    let t4 = solver.new_variable(21, 30);
    let t5 = solver.new_variable(24, 25);
    let t6 = solver.new_variable(31, 40);

    let tasks = vec![t1, t2, t3, t4, t5, t6];
    let durations = vec![5, 3, 10, 5, 3, 20];

    let mut propagator = DisjunctivePropagator::from_vectors(tasks, durations);
    propagator.propagate(&mut solver).expect("fail");

    let result = propagator.propagate(&mut solver);
    println!("Propagation result: {:?}", result);
    println!("t1 bounds: {} - {}", solver.lower_bound(t1), solver.upper_bound(t1));
    println!("t2 bounds: {} - {}", solver.lower_bound(t2), solver.upper_bound(t2));
    println!("t3 bounds: {} - {}", solver.lower_bound(t3), solver.upper_bound(t3));
    println!("t4 bounds: {} - {}", solver.lower_bound(t4), solver.upper_bound(t4));
    println!("t5 bounds: {} - {}", solver.lower_bound(t5), solver.upper_bound(t5));
    println!("t6 bounds: {} - {}", solver.lower_bound(t6), solver.upper_bound(t6));
}

#[test]
fn check_explanations_failure() {
    let mut solver = Assignments::new();
    let t1 = solver.new_variable(0, 1);
    let t2 = solver.new_variable(6, 11);
    let t3 = solver.new_variable(11, 20);
    let t4 = solver.new_variable(12, 16);
    let t5 = solver.new_variable(22, 22);

    let tasks = vec![t1, t2, t3, t4, t5];
    let durations = vec![6, 5, 6, 5, 6];

    let mut propagator = DisjunctivePropagator::from_vectors(tasks, durations);
    let result = propagator.propagate(&mut solver);
    println!("Propagation result: {:?}", result);
    assert!(matches!(result, Err(Inconsistency::Conflict(_))));

    println!("t1 bounds: {} - {}", solver.lower_bound(t1), solver.upper_bound(t1));
    println!("t2 bounds: {} - {}", solver.lower_bound(t2), solver.upper_bound(t2));
    println!("t3 bounds: {} - {}", solver.lower_bound(t3), solver.upper_bound(t3));
    println!("t4 bounds: {} - {}", solver.lower_bound(t4), solver.upper_bound(t4));
    println!("t5 bounds: {} - {}", solver.lower_bound(t5), solver.upper_bound(t5));
}

#[test]
fn check_task_bounds() {
    let mut solver = Assignments::new();
    let x5 = solver.new_variable(81, 88);
    let d5 = 6;
    let x7 = solver.new_variable(2, 43);
    let d7 = 4;
    let x8 = solver.new_variable(6, 47);
    let d8 = 5;
    let x12 = solver.new_variable(3, 73);
    let d12 = 6;
    let x13 = solver.new_variable(9, 82);
    let d13 = 3;
    let x14 = solver.new_variable(85, 85);
    let d14 = 4;
    let x20 = solver.new_variable(19, 90);
    let d20 = 4;

    let tasks = vec![x5, x7, x8, x12, x13, x14, x20];
    let durations = vec![d5, d7, d8, d12, d13, d14, d20];

    // x5 (81..=88, duration 6) cannot avoid x14 (fixed at 85, duration 4): the instance
    // has no schedule, and propagation at the root empties the domain of x5.
    let mut propagator = DisjunctivePropagator::from_vectors(tasks, durations);
    let result = propagator.propagate(&mut solver);
    assert!(matches!(result, Err(Inconsistency::EmptyDomain)));

    println!("x5 bounds: {} - {}", solver.lower_bound(x5), solver.upper_bound(x5));
    println!("x7 bounds: {} - {}", solver.lower_bound(x7), solver.upper_bound(x7));
    println!("x8 bounds: {} - {}", solver.lower_bound(x8), solver.upper_bound(x8));
    println!("x12 bounds: {} - {}", solver.lower_bound(x12), solver.upper_bound(x12));
    println!("x13 bounds: {} - {}", solver.lower_bound(x13), solver.upper_bound(x13));
    println!("x14 bounds: {} - {}", solver.lower_bound(x14), solver.upper_bound(x14));
    println!("x20 bounds: {} - {}", solver.lower_bound(x20), solver.upper_bound(x20));
}

#[test]
fn custom() {
    let mut solver = Assignments::new();
    let t1 = solver.new_variable(0, 27);
    let t2 = solver.new_variable(21, 21);
    let t3 = solver.new_variable(28, 28);
    let t4 = solver.new_variable(25, 36);

    let tasks = vec![t1, t2, t3, t4];
    let durations = vec![2, 6, 4, 3];

    let mut propagator = DisjunctivePropagator::from_vectors(tasks, durations);
    propagator.propagate(&mut solver).expect("fail");

    println!("t1 bounds: {} - {}", solver.lower_bound(t1), solver.upper_bound(t1));
    println!("t2 bounds: {} - {}", solver.lower_bound(t2), solver.upper_bound(t2));
    println!("t3 bounds: {} - {}", solver.lower_bound(t3), solver.upper_bound(t3));
    println!("t4 bounds: {} - {}", solver.lower_bound(t4), solver.upper_bound(t4));
    assert_eq!((solver.lower_bound(t1), solver.upper_bound(t1)), (0, 19));
    assert_eq!((solver.lower_bound(t4), solver.upper_bound(t4)), (32, 36));
}
