use micrograd::graph::{Graph, Node};
use micrograd::network::{layer_shapes, Layer, Neuron, MLP};

#[test]
fn layer_shapes_rectify_all_but_last() {
    let shapes = layer_shapes(3, &vec![4, 4, 1]);
    assert_eq!(shapes, vec![(3, 4, true), (4, 4, true), (4, 1, false)]);
    assert!(layer_shapes(2, &vec![]).is_empty());
}

#[test]
fn neuron_builds_weighted_sum() {
    let mut g: Graph<f64> = Graph::new();
    let x0 = g.leaf(1.0);
    let x1 = g.leaf(2.0);
    let n = Neuron::new(&mut g, &vec![0.5, -0.25], 0.0, false);
    assert_eq!(n.parameters(), vec![2, 3, 4]);
    let r = n.call(&mut g, &vec![x0, x1]);
    assert_eq!(r, 8);
    assert!(matches!(g.node(5), Node::Mul(2, 0)));
    assert!(matches!(g.node(6), Node::Add(4, 5)));
    assert!(matches!(g.node(7), Node::Mul(3, 1)));
    assert!(matches!(g.node(8), Node::Add(6, 7)));
}

#[test]
fn rectifying_neuron_ends_with_relu() {
    let mut g: Graph<f64> = Graph::new();
    let x0 = g.leaf(1.0);
    let n = Neuron::new(&mut g, &vec![0.5], 0.0, true);
    let r = n.call(&mut g, &vec![x0]);
    assert!(matches!(g.node(r), Node::Relu(s) if s == r - 1));
}

#[test]
fn neuron_without_inputs_is_its_bias() {
    let mut g: Graph<f64> = Graph::new();
    let n = Neuron::new(&mut g, &vec![], 0.0, false);
    let r = n.call(&mut g, &vec![]);
    assert_eq!(r, 0);
    assert_eq!(g.len(), 1);
}

#[test]
fn layer_and_network_outputs() {
    let mut g: Graph<f64> = Graph::new();
    let x0 = g.leaf(1.0);
    let x1 = g.leaf(-1.0);
    let layer = Layer::new(&mut g, &vec![vec![0.1, 0.2], vec![0.3, 0.4], vec![0.5, 0.6]], 0.0, true);
    assert_eq!(layer.parameters().len(), 9);
    let out = layer.call(&mut g, &vec![x0, x1]);
    assert_eq!(out.len(), 3);

    let weights = vec![vec![vec![0.1, 0.2], vec![0.3, 0.4]], vec![vec![0.5, 0.6]]];
    let mlp = MLP::new(&mut g, &weights, 0.0);
    assert_eq!(mlp.parameters().len(), 9);
    let y = mlp.call(&mut g, &vec![x0, x1]);
    assert_eq!(y.len(), 1);
    assert!(matches!(g.node(y[0]), Node::Add(_, _)));
}

#[test]
fn network_cost_and_checked_call() {
    let mut g: Graph<f64> = Graph::new();
    let x0 = g.leaf(1.0);
    let x1 = g.leaf(2.0);
    let weights = vec![vec![vec![0.1, 0.2], vec![0.3, 0.4]], vec![vec![0.5, 0.6]]];
    let mlp = MLP::new(&mut g, &weights, 0.0);
    // 2 neurons on 2 inputs, then 1 neuron on 2 inputs.
    assert_eq!(mlp.cost(2), Some(2 * 6 + 6));
    assert_eq!(mlp.cost(usize::MAX), None);
    let before = g.len();
    assert_eq!(mlp.try_call(&mut g, &vec![x0, 1000]), None);
    assert_eq!(g.len(), before);
    let y = mlp.try_call(&mut g, &vec![x0, x1]).unwrap();
    assert_eq!(y.len(), 1);
    // Layer one: two rectified neurons of two terms each; layer two: one linear neuron.
    assert_eq!(g.len(), before + 2 * 5 + 4);
    assert_eq!(y[0], g.len() - 1);
}

#[test]
fn network_parameters_in_layer_order() {
    let mut g: Graph<f64> = Graph::new();
    let weights = vec![vec![vec![0.1], vec![0.2]], vec![vec![0.3, 0.4]]];
    let mlp = MLP::new(&mut g, &weights, 0.0);
    assert_eq!(mlp.parameters(), vec![0, 1, 2, 3, 4, 5, 6]);
    assert_eq!(g.len(), 7);
    assert!(matches!(g.node(4), Node::Leaf(w) if w == 0.3));
    assert!(matches!(g.node(6), Node::Leaf(b) if b == 0.0));
}
