use lib::engine::Assignments;
use lib::theta_lambda_trees::ThetaLambdaTree;

#[test]
fn test_tree_example_vilim() {
    let mut solver = Assignments::new();
    let a = solver.new_variable(0, 0);
    let b = solver.new_variable(25, 25);
    let c = solver.new_variable(30, 30);
    let d = solver.new_variable(32, 32);

    let tasks = vec![a, b, c, d];
    let durations = vec![5, 9, 5, 10];

    let mut tree = ThetaLambdaTree::from_vectors(tasks, durations, &solver);

    tree.convert_to_gray_index(5);

    assert_eq!(tree.ect(), 44);
    assert_eq!(tree.ect_bar(), 49);
}

#[test]
fn test_tree_my_test() {
    let mut solver = Assignments::new();
    let t1 = solver.new_variable(0, 10);
    let t2 = solver.new_variable(2, 4); // gray
    let t3 = solver.new_variable(11, 15);
    let t4 = solver.new_variable(21, 30);
    let t5 = solver.new_variable(25, 26); // gray
    let t6 = solver.new_variable(31, 40); // gray

    let tasks = vec![t1, t2, t3, t4, t5, t6];
    let durations = vec![5, 2, 10, 5, 1, 20];

    let mut tree = ThetaLambdaTree::from_vectors(tasks, durations, &solver);

    tree.convert_to_gray_id(t2.domain);
    tree.convert_to_gray_id(t5.domain);
    tree.convert_to_gray_id(t6.domain);

    assert_eq!(tree.ect_bar(), 51);
    assert_eq!(tree.sum_p_bar(), 40);
    assert_eq!(tree.ect(), 26);
    assert_eq!(tree.sum_p(), 20);
}

#[test]
fn test_one_node() {
    let mut solver = Assignments::new();
    let t1 = solver.new_variable(0, 10);
    let tasks = vec![t1];
    let durations = vec![5];

    let tree = ThetaLambdaTree::from_vectors(tasks, durations, &solver);

    println!("[{:?}]", tree);
    assert_eq!(tree.ect(), 5);
    assert_eq!(tree.ect_bar(), 5);
}

#[test]
fn test_something() {
    let mut solver = Assignments::new();
    let t1 = solver.new_variable(0, 10);
    let t2 = solver.new_variable(2, 4);
    let t3 = solver.new_variable(11, 15);

    let tasks = vec![t1, t2, t3];
    let durations = vec![5, 3, 10];

    let tree = ThetaLambdaTree::from_vectors(tasks, durations, &solver);

    println!("[{:?}]", tree.nodes[0]);
    println!("[{:?}]", tree.nodes[1]);
    println!("[{:?}]", tree.nodes[2]);
    println!("[{:?}]", tree.nodes[3]);
    println!("[{:?}]", tree.nodes[4]);
}
