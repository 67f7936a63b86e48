use graph_order::eval_order;
use graph_order::eval_order_for_nodes;
use graph_order::Fact;
use graph_order::Graph;
use graph_order::Node;
use graph_order::OrderError;

fn scalar() -> Fact {
    Fact { datum_width: 4, shape: Some(vec![1]) }
}

fn node(inputs: Vec<usize>) -> Node {
    Node { inputs, outputs: vec![scalar()] }
}

#[test]
fn simple() {
    let a = node(vec![]);
    let b = node(vec![]);
    let add = node(vec![0, 1]);
    let model = Graph { nodes: vec![a, b, add], inputs: vec![0], outputs: vec![2] };
    assert_eq!(eval_order(&model).unwrap(), vec![0, 1, 2]);
}

#[test]
fn diamond() {
    let a = node(vec![]);
    let add = node(vec![0, 0]);
    let model = Graph { nodes: vec![a, add], inputs: vec![0], outputs: vec![1] };
    assert_eq!(eval_order(&model).unwrap(), vec![0, 1]);
}

#[test]
fn dodge_loop() {
    // a feeds add; neg consumes add and a; an edge from neg back into
    // add's second input slot closes a two-node cycle.
    let a = node(vec![]);
    let add = node(vec![0, 2]);
    let neg = node(vec![1, 0]);
    let model = Graph { nodes: vec![a, add, neg], inputs: vec![0], outputs: vec![2] };
    assert!(eval_order(&model).is_err());
}

#[test]
fn extra_dependency_cycle() {
    // The graph itself is acyclic; an injected extra dependency makes
    // add wait for neg while neg consumes add.
    let a = node(vec![]);
    let add = node(vec![0]);
    let neg = node(vec![1]);
    let nodes = vec![a, add, neg];
    let res = eval_order_for_nodes(&nodes, &vec![0], &vec![2], &vec![(1, 2)]);
    assert_eq!(res, Err(OrderError::CycleDetected));
}

#[test]
fn self_extra_dependency_detected() {
    let a = node(vec![]);
    let b = node(vec![0]);
    let nodes = vec![a, b];
    let res = eval_order_for_nodes(&nodes, &vec![0], &vec![1], &vec![(1, 1)]);
    assert_eq!(res, Err(OrderError::CycleDetected));
}

#[test]
fn leaf_constant_deferred_to_first_consumer() {
    // x0 -> x1; a leaf constant c feeds both m1 and m2, far apart:
    // the constant is emitted right before its first consumer, not at
    // the very start, because non-leaf producers resolve first.
    let x0 = node(vec![]);
    let x1 = node(vec![0]);
    let c = node(vec![]);
    let m1 = node(vec![2, 1]);
    let x2 = node(vec![3]);
    let m2 = node(vec![4, 2]);
    let model = Graph {
        nodes: vec![x0, x1, c, m1, x2, m2],
        inputs: vec![0],
        outputs: vec![5],
    };
    assert_eq!(eval_order(&model).unwrap(), vec![0, 1, 2, 3, 4, 5]);
}

#[test]
fn unreached_nodes_left_out() {
    // Only the ancestors of the requested output are ordered.
    let a = node(vec![]);
    let b = node(vec![0]);
    let stray = node(vec![]);
    let model = Graph { nodes: vec![a, b, stray], inputs: vec![0], outputs: vec![1] };
    let order = eval_order(&model).unwrap();
    assert_eq!(order, vec![0, 1]);
    assert!(!order.contains(&2));
}

#[test]
fn repeated_calls_agree() {
    let a = node(vec![]);
    let b = node(vec![]);
    let add = node(vec![0, 1]);
    let mul = node(vec![2, 1]);
    let model = Graph { nodes: vec![a, b, add, mul], inputs: vec![0], outputs: vec![3] };
    let first = eval_order(&model).unwrap();
    let second = eval_order(&model).unwrap();
    assert_eq!(first, second);
}

#[test]
fn multiple_outputs_each_once() {
    let a = node(vec![]);
    let b = node(vec![0]);
    let c = node(vec![1]);
    let nodes = vec![a, b, c];
    let order = eval_order_for_nodes(&nodes, &vec![0], &vec![1, 2, 1], &vec![]).unwrap();
    assert_eq!(order, vec![0, 1, 2]);
}
