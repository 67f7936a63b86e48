use graph_order::eval_order_for_nodes_memory;
use graph_order::node_cost;
use graph_order::Fact;
use graph_order::Node;
use graph_order::OrderError;

fn sized(bytes: usize) -> Fact {
    Fact { datum_width: 1, shape: Some(vec![bytes]) }
}

fn node(inputs: Vec<usize>, bytes: usize) -> Node {
    Node { inputs, outputs: vec![sized(bytes)] }
}

#[test]
fn cost_is_width_times_elements() {
    let n = Node {
        inputs: vec![],
        outputs: vec![Fact { datum_width: 4, shape: Some(vec![2, 3]) }],
    };
    assert_eq!(node_cost(&n), 24);
}

#[test]
fn unknown_shape_costs_nothing() {
    let n = Node { inputs: vec![], outputs: vec![Fact { datum_width: 4, shape: None }] };
    assert_eq!(node_cost(&n), 0);
}

#[test]
fn cost_sums_outputs_and_saturates() {
    let n = Node {
        inputs: vec![],
        outputs: vec![
            Fact { datum_width: 2, shape: Some(vec![5]) },
            Fact { datum_width: 1, shape: Some(vec![7]) },
        ],
    };
    assert_eq!(node_cost(&n), 17);
    let fat = Node {
        inputs: vec![],
        outputs: vec![Fact { datum_width: usize::MAX, shape: Some(vec![2]) }],
    };
    assert_eq!(node_cost(&fat), usize::MAX);
}

#[test]
fn scheduler_orders_dependencies_first() {
    let a = node(vec![], 4);
    let b = node(vec![], 4);
    let add = node(vec![0, 1], 4);
    let nodes = vec![a, b, add];
    let order = eval_order_for_nodes_memory(&nodes, &vec![], &vec![2], &vec![]).unwrap();
    assert_eq!(order.len(), 3);
    let pos = |x: usize| order.iter().position(|&v| v == x).unwrap();
    assert!(pos(0) < pos(2));
    assert!(pos(1) < pos(2));
}

#[test]
fn scheduler_skips_unrequired_nodes() {
    let a = node(vec![], 4);
    let b = node(vec![0], 4);
    let stray = node(vec![], 4);
    let nodes = vec![a, b, stray];
    let order = eval_order_for_nodes_memory(&nodes, &vec![], &vec![1], &vec![]).unwrap();
    assert_eq!(order, vec![0, 1]);
    assert!(!order.contains(&2));
}

#[test]
fn scheduler_defers_fat_tensor() {
    // A fat intermediate (node 1) could be kept live across the whole
    // unrelated chain 3 -> 4 -> 5, or produced just before its only
    // consumer; the greedy lookahead must pick the low-peak order.
    let a = node(vec![], 4);
    let fat = node(vec![0], 1000);
    let g = node(vec![1], 4);
    let l1 = node(vec![], 4);
    let l2 = node(vec![3], 4);
    let l3 = node(vec![4], 4);
    let h = node(vec![2, 5], 4);
    let nodes = vec![a, fat, g, l1, l2, l3, h];
    let order = eval_order_for_nodes_memory(&nodes, &vec![], &vec![6], &vec![]).unwrap();
    assert_eq!(order, vec![0, 3, 4, 5, 1, 2, 6]);
}

#[test]
fn scheduler_detects_cycle() {
    let a = node(vec![1], 4);
    let b = node(vec![0], 4);
    let nodes = vec![a, b];
    let res = eval_order_for_nodes_memory(&nodes, &vec![], &vec![1], &vec![]);
    assert_eq!(res, Err(OrderError::CycleDetected));
}

#[test]
fn scheduler_honors_extra_dependencies() {
    let a = node(vec![], 4);
    let b = node(vec![], 4);
    let c = node(vec![0], 4);
    let nodes = vec![a, b, c];
    // c must also wait for b through an extra dependency.
    let order = eval_order_for_nodes_memory(&nodes, &vec![], &vec![2], &vec![(2, 1)]).unwrap();
    let pos = |x: usize| order.iter().position(|&v| v == x).unwrap();
    assert!(pos(1) < pos(2));
    assert!(pos(0) < pos(2));
}

#[test]
fn scheduler_repeated_calls_agree() {
    let a = node(vec![], 4);
    let b = node(vec![], 8);
    let add = node(vec![0, 1], 4);
    let nodes = vec![a, b, add];
    let first = eval_order_for_nodes_memory(&nodes, &vec![], &vec![2], &vec![]).unwrap();
    let second = eval_order_for_nodes_memory(&nodes, &vec![], &vec![2], &vec![]).unwrap();
    assert_eq!(first, second);
}
