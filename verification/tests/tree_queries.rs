use lib::disjunctive::compute_overload_explanation;
use lib::engine::{Assignments, Inconsistency, IntVar, Predicate};
use lib::sorting::stable_order;
use lib::theta_lambda_trees::{Node, ThetaLambdaTree};

fn vilim_tree(solver: &mut Assignments) -> (ThetaLambdaTree, Vec<IntVar>) {
    let a = solver.new_variable(0, 0);
    let b = solver.new_variable(25, 25);
    let c = solver.new_variable(30, 30);
    let d = solver.new_variable(32, 32);
    let vars = vec![a, b, c, d];
    let tree = ThetaLambdaTree::from_vectors(vars.clone(), vec![5, 9, 5, 10], solver);
    (tree, vars)
}

#[test]
fn leaves_follow_earliest_start() {
    let mut solver = Assignments::new();
    let late = solver.new_variable(20, 30);
    let early = solver.new_variable(1, 3);
    let tree = ThetaLambdaTree::from_vectors(vec![late, early], vec![4, 2], &solver);

    assert_eq!(tree.n, 1);
    assert_eq!(tree.num_tasks, 2);
    assert_eq!(tree.nodes.len(), 3);
    assert_eq!(tree.nodes[1].node_id.unwrap().0, early.domain);
    assert_eq!(tree.nodes[2].node_id.unwrap().0, late.domain);
    assert_eq!(tree.nodes[1].ect, 3);
    assert_eq!(tree.nodes[2].ect, 24);
    assert_eq!(tree.est(&solver), 1);
    assert_eq!(tree.ect(), 24);
    assert_eq!(tree.sum_p(), 6);
}

#[test]
fn equal_starts_keep_their_order() {
    let order = stable_order(&vec![3, 1, 3, 0]);
    assert_eq!(order, vec![3, 1, 0, 2]);
}

#[test]
fn unused_leaves_pad_to_a_power_of_two() {
    let mut solver = Assignments::new();
    let t1 = solver.new_variable(0, 10);
    let t2 = solver.new_variable(2, 4);
    let t3 = solver.new_variable(11, 15);
    let tree = ThetaLambdaTree::from_vectors(vec![t1, t2, t3], vec![5, 3, 10], &solver);

    assert_eq!(tree.n, 3);
    assert_eq!(tree.nodes.len(), 7);
    assert!(tree.nodes[6].node_id.is_none());
    assert!(!tree.nodes[6].is_leaf());
    // t1 then t2 then t3: 0 + 5 + 3 = 8, so t3 decides with 11 + 10.
    assert_eq!(tree.ect(), 21);
    assert_eq!(tree.sum_p(), 18);
    assert_eq!(tree.ect_bar(), 21);
    assert_eq!(tree.sum_p_bar(), 18);
}

#[test]
fn heap_navigation() {
    let mut solver = Assignments::new();
    let (tree, _) = vilim_tree(&mut solver);
    assert_eq!(tree.get_left_child(1), 3);
    assert_eq!(tree.get_right_child(1), 4);
    assert_eq!(tree.get_parent(4), 1);
    assert_eq!(tree.get_parent(5), 2);
    assert_eq!(tree.find_id(1), Some(4));
    assert_eq!(tree.find_id(9), None);
}

#[test]
fn gray_task_is_responsible_for_ect_bar() {
    let mut solver = Assignments::new();
    let (mut tree, vars) = vilim_tree(&mut solver);
    tree.convert_to_gray_id(vars[2].domain);

    assert_eq!(tree.ect(), 44);
    assert_eq!(tree.ect_bar(), 49);
    assert_eq!(tree.sum_p(), 24);
    assert_eq!(tree.sum_p_bar(), 29);

    let (id, var, p) = tree.responsible_ect_bar(0).unwrap();
    assert_eq!(id, 2);
    assert_eq!(var.domain, 2);
    assert_eq!(p, 5);

    let (id, _, p) = tree.responsible_sum_p_bar(0).unwrap();
    assert_eq!(id, 2);
    assert_eq!(p, 5);
}

#[test]
fn removed_task_leaves_theta_alone() {
    let mut solver = Assignments::new();
    let (mut tree, vars) = vilim_tree(&mut solver);
    tree.convert_to_gray_id(vars[2].domain);
    tree.remove_from_lambda_id(vars[2].domain);

    assert_eq!(tree.ect(), 44);
    assert_eq!(tree.ect_bar(), 44);
    assert_eq!(tree.sum_p(), 24);
    assert_eq!(tree.sum_p_bar(), 24);
    assert!(tree.responsible_ect_bar(0).is_none());
    assert!(!tree.nodes[5].is_leaf());
}

#[test]
fn theta_and_node_listings() {
    let mut solver = Assignments::new();
    let (mut tree, vars) = vilim_tree(&mut solver);
    tree.convert_to_gray_index(5);

    let theta: Vec<(usize, i32, bool)> =
        tree.get_all_theta().iter().map(|(v, p, b)| (v.domain, *p, *b)).collect();
    assert_eq!(theta, vec![(0, 5, true), (1, 9, true), (3, 10, true)]);

    let all: Vec<(usize, i32, bool)> =
        tree.get_all_nodes().iter().map(|(v, p, b)| (v.domain, *p, *b)).collect();
    assert_eq!(all, vec![(0, 5, true), (1, 9, true), (2, 0, false), (3, 10, true)]);

    let leaves: Vec<(usize, i32)> =
        tree.get_all_leaves(0).iter().map(|(v, p)| (v.domain, *p)).collect();
    assert_eq!(leaves, vec![(0, 5), (1, 9), (3, 10)]);

    let (omegas, total) = tree.get_all_omegas(0);
    let omegas: Vec<(usize, i32)> = omegas.iter().map(|(v, p)| (v.domain, *p)).collect();
    assert_eq!(omegas, vec![(1, 9), (3, 10)]);
    assert_eq!(total, 19);
    assert_eq!(vars.len(), 4);
}

#[test]
fn node_states() {
    let empty = Node::new();
    assert_eq!(empty.ect, i32::MIN);
    assert_eq!(empty.sum_p, 0);
    assert!(!empty.is_leaf());
    assert!(!empty.is_gray());

    let mut leaf = Node::white_node(7, 3);
    assert_eq!((leaf.ect, leaf.sum_p, leaf.ect_bar, leaf.sum_p_bar), (7, 3, 7, 3));
    assert!(leaf.is_leaf());
    assert!(!leaf.is_gray());

    leaf.to_gray();
    assert_eq!((leaf.ect, leaf.sum_p, leaf.ect_bar, leaf.sum_p_bar), (i32::MIN, 0, 7, 3));
    assert!(leaf.is_gray());

    leaf.to_empty();
    assert!(!leaf.is_leaf());
    assert!(!leaf.is_gray());
    assert_eq!(leaf.sum_p_bar, 0);
}

#[test]
fn overload_explanation_windows() {
    // Starts before zero and a latest completion after it: the lower end absorbs the
    // upper end's share of the overrun.
    let mut solver = Assignments::new();
    let t1 = solver.new_variable(-3, -3);
    let t2 = solver.new_variable(-1, -1);
    let tree = ThetaLambdaTree::from_vectors(vec![t1, t2], vec![5, 5], &solver);
    match compute_overload_explanation(tree, 5, &solver) {
        Err(Inconsistency::Conflict(reason)) => assert_eq!(
            reason,
            vec![
                Predicate::LowerBound { domain: 0, bound: -9 },
                Predicate::UpperBound { domain: 0, bound: 5 },
                Predicate::LowerBound { domain: 1, bound: -9 },
                Predicate::UpperBound { domain: 1, bound: 5 },
            ]
        ),
        other => panic!("expected a conflict, got {:?}", other),
    }

    // Everything before zero: the overrun goes to the upper end.
    let mut solver = Assignments::new();
    let t1 = solver.new_variable(-10, -10);
    let t2 = solver.new_variable(-8, -8);
    let tree = ThetaLambdaTree::from_vectors(vec![t1, t2], vec![5, 5], &solver);
    match compute_overload_explanation(tree, -2, &solver) {
        Err(Inconsistency::Conflict(reason)) => assert_eq!(
            reason,
            vec![
                Predicate::LowerBound { domain: 0, bound: -10 },
                Predicate::UpperBound { domain: 0, bound: -6 },
                Predicate::LowerBound { domain: 1, bound: -10 },
                Predicate::UpperBound { domain: 1, bound: -6 },
            ]
        ),
        other => panic!("expected a conflict, got {:?}", other),
    }

    // Only the tasks from the first one whose run overruns are kept.
    let mut solver = Assignments::new();
    let early = solver.new_variable(0, 0);
    let t1 = solver.new_variable(20, 20);
    let t2 = solver.new_variable(22, 22);
    let tree = ThetaLambdaTree::from_vectors(vec![early, t1, t2], vec![2, 5, 5], &solver);
    match compute_overload_explanation(tree, 28, &solver) {
        Err(Inconsistency::Conflict(reason)) => assert_eq!(
            reason,
            vec![
                Predicate::LowerBound { domain: 1, bound: 20 },
                Predicate::UpperBound { domain: 1, bound: 24 },
                Predicate::LowerBound { domain: 2, bound: 20 },
                Predicate::UpperBound { domain: 2, bound: 24 },
            ]
        ),
        other => panic!("expected a conflict, got {:?}", other),
    }
}

#[test]
fn longest_gray_task_first_from_the_left() {
    let mut solver = Assignments::new();
    let a = solver.new_variable(0, 0);
    let b = solver.new_variable(10, 10);
    let c = solver.new_variable(20, 20);
    let d = solver.new_variable(30, 30);
    let mut tree = ThetaLambdaTree::from_vectors(vec![a, b, c, d], vec![5, 3, 3, 1], &solver);
    assert!(tree.responsible_sum_p_bar(0).is_none());

    tree.convert_to_gray_id(c.domain);
    tree.convert_to_gray_id(b.domain);
    assert_eq!(tree.sum_p(), 6);
    assert_eq!(tree.sum_p_bar(), 9);
    let (id, _, p) = tree.responsible_sum_p_bar(0).unwrap();
    assert_eq!(id, b.domain);
    assert_eq!(p, 3);
}
