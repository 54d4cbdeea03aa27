use micrograd::backward::{Rule, Step};
use micrograd::graph::{Graph, Node};

/// Forward values of every node, in arena order.
fn values(g: &Graph<f64>) -> Vec<f64> {
    let mut v: Vec<f64> = Vec::new();
    for i in 0..g.len() {
        let x = match g.node(i) {
            Node::Leaf(c) => c,
            Node::Add(a, b) => v[a] + v[b],
            Node::Mul(a, b) => v[a] * v[b],
            Node::Neg(a) => -1.0 * v[a],
            Node::Pow(a, p) => v[a].powf(p),
            Node::Relu(a) => {
                if v[a] < 0.0 {
                    0.0
                } else {
                    v[a]
                }
            }
        };
        v.push(x);
    }
    v
}

/// Gradients of `root` with respect to every node, by running the library's plan.
fn gradients(g: &Graph<f64>, root: usize) -> Vec<f64> {
    let v = values(g);
    let mut grad = vec![0.0; g.len()];
    grad[root] = 1.0;
    for s in g.backward_plan(root) {
        let factor = match s.rule {
            Rule::Pass => 1.0,
            Rule::ScaleBy(o) => v[o],
            Rule::Negate => -1.0,
            Rule::Power => match g.node(s.node) {
                Node::Pow(a, p) => p * v[a].powf(p - 1.0),
                _ => panic!("power step on a node that is no power"),
            },
            Rule::Rectify => {
                if v[s.node] > 0.0 {
                    1.0
                } else {
                    0.0
                }
            }
        };
        grad[s.operand] += factor * grad[s.node];
    }
    grad
}

#[test]
fn test_value_addition() {
    let mut g: Graph<f64> = Graph::new();
    let a = g.leaf(2.0);
    let b = g.leaf(3.0);
    let c = g.add(a, b);
    assert_eq!(values(&g)[c], 5.0);
}

#[test]
fn test_value_multiplication() {
    let mut g: Graph<f64> = Graph::new();
    let a = g.leaf(2.0);
    let b = g.leaf(3.0);
    let c = g.mul(a, b);
    assert_eq!(values(&g)[c], 6.0);
}

#[test]
fn test_value_negation() {
    let mut g: Graph<f64> = Graph::new();
    let a = g.leaf(2.0);
    let b = g.neg(a);
    assert_eq!(values(&g)[b], -2.0);
}

#[test]
fn test_value_subtraction() {
    let mut g: Graph<f64> = Graph::new();
    let a = g.leaf(5.0);
    let b = g.leaf(3.0);
    let c = g.sub(a, b);
    assert_eq!(values(&g)[c], 2.0);
}

#[test]
fn test_value_division() {
    let mut g: Graph<f64> = Graph::new();
    let a = g.leaf(6.0);
    let b = g.leaf(3.0);
    let c = g.div(a, b, -1.0);
    assert_eq!(values(&g)[c], 2.0);
}

#[test]
fn test_value_relu() {
    let mut g: Graph<f64> = Graph::new();
    let a = g.leaf(-1.0);
    let b = g.relu(a);
    assert_eq!(values(&g)[b], 0.0);

    let c = g.leaf(1.0);
    let d = g.relu(c);
    assert_eq!(values(&g)[d], 1.0);
}

#[test]
fn test_value_pow() {
    let mut g: Graph<f64> = Graph::new();
    let a = g.leaf(2.0);
    let b = g.pow(a, 3.0);
    assert_eq!(values(&g)[b], 8.0);
}

#[test]
fn test_more_ops() {
    let mut g: Graph<f64> = Graph::new();
    let a = g.leaf(-4.0);
    let b = g.leaf(2.0);
    let mut c = g.add(a, b);
    let ab = g.mul(a, b);
    let b3 = g.pow(b, 3.0);
    let mut d = g.add(ab, b3);
    // c = c + c + 1
    let cc = g.add(c, c);
    let one = g.leaf(1.0);
    c = g.add(cc, one);
    // c = c + 1 + c + (-a)
    let one2 = g.leaf(1.0);
    let c1 = g.add(c, one2);
    let c2 = g.add(c1, c);
    let na = g.neg(a);
    c = g.add(c2, na);
    // d = d + d * 2 + (b + a).relu()
    let two = g.leaf(2.0);
    let d2 = g.mul(d, two);
    let dd = g.add(d, d2);
    let ba = g.add(b, a);
    let rba = g.relu(ba);
    d = g.add(dd, rba);
    // d = d + 3 * d + (b - a).relu()
    let three = g.leaf(3.0);
    let d3 = g.mul(three, d);
    let dd3 = g.add(d, d3);
    let bma = g.sub(b, a);
    let rbma = g.relu(bma);
    d = g.add(dd3, rbma);
    let e = g.sub(c, d);
    let f = g.pow(e, 2.0);
    let two2 = g.leaf(2.0);
    let mut gg = g.div(f, two2, -1.0);
    let ten = g.leaf(10.0);
    let tf = g.div(ten, f, -1.0);
    gg = g.add(gg, tf);

    let v = values(&g);
    let grad = gradients(&g, gg);
    println!("gmg.data: {}", v[gg]);
    println!("amg.grad: {}", grad[a]);
    println!("bmg.grad: {}", grad[b]);
    let tol = 1e-6;
    assert!((v[gg] - 24.70408163265306).abs() < tol);
    assert!((grad[a] - 138.83381924198252).abs() < tol);
    assert!((grad[b] - 645.5772594752186).abs() < tol);
}

#[test]
fn addition_gradient_reaches_both_operands() {
    let mut g: Graph<f64> = Graph::new();
    let a = g.leaf(2.0);
    let b = g.leaf(-7.5);
    let c = g.add(a, b);
    let grad = gradients(&g, c);
    assert_eq!(grad[a], 1.0);
    assert_eq!(grad[b], 1.0);
    assert_eq!(
        g.backward_plan(c),
        vec![
            Step { node: c, operand: a, rule: Rule::Pass },
            Step { node: c, operand: b, rule: Rule::Pass },
        ]
    );
}

#[test]
fn multiplication_gradient_is_other_value() {
    let mut g: Graph<f64> = Graph::new();
    let a = g.leaf(2.0);
    let b = g.leaf(3.0);
    let c = g.mul(a, b);
    let grad = gradients(&g, c);
    assert_eq!(grad[a], 3.0);
    assert_eq!(grad[b], 2.0);
    assert_eq!(
        g.backward_plan(c),
        vec![
            Step { node: c, operand: a, rule: Rule::ScaleBy(b) },
            Step { node: c, operand: b, rule: Rule::ScaleBy(a) },
        ]
    );
}

#[test]
fn power_gradient() {
    let mut g: Graph<f64> = Graph::new();
    let a = g.leaf(2.0);
    let b = g.pow(a, 3.0);
    let grad = gradients(&g, b);
    assert_eq!(grad[a], 12.0);
    assert_eq!(g.backward_plan(b), vec![Step { node: b, operand: a, rule: Rule::Power }]);
}

#[test]
fn relu_gradient_follows_sign() {
    let mut g: Graph<f64> = Graph::new();
    let a = g.leaf(-3.0);
    let r = g.relu(a);
    assert_eq!(gradients(&g, r)[a], 0.0);
    let b = g.leaf(4.0);
    let s = g.relu(b);
    assert_eq!(values(&g)[s], 4.0);
    assert_eq!(gradients(&g, s)[b], 1.0);
    assert_eq!(g.backward_plan(s), vec![Step { node: s, operand: b, rule: Rule::Rectify }]);
}

#[test]
fn negation_gradient() {
    let mut g: Graph<f64> = Graph::new();
    let a = g.leaf(5.0);
    let n = g.neg(a);
    assert_eq!(gradients(&g, n)[a], -1.0);
    assert_eq!(g.backward_plan(n), vec![Step { node: n, operand: a, rule: Rule::Negate }]);
}

#[test]
fn subtraction_and_division_build_fresh_nodes() {
    let mut g: Graph<f64> = Graph::new();
    let a = g.leaf(6.0);
    let b = g.leaf(3.0);
    let s = g.sub(a, b);
    assert_eq!(s, 3);
    assert!(matches!(g.node(2), Node::Neg(x) if x == b));
    assert!(matches!(g.node(3), Node::Add(x, y) if x == a && y == 2));
    let d = g.div(a, b, -1.0);
    assert_eq!(d, 5);
    assert!(matches!(g.node(4), Node::Pow(x, p) if x == b && p == -1.0));
    assert!(matches!(g.node(5), Node::Mul(x, y) if x == a && y == 4));
    let grad = gradients(&g, d);
    assert!((grad[a] - 1.0 / 3.0).abs() < 1e-12);
    assert!((grad[b] + 6.0 / 9.0).abs() < 1e-12);
}

#[test]
fn diamond_gradient_sums_both_paths() {
    // d = (a * 2) + (a * 3): a is shared by two consumers.
    let mut g: Graph<f64> = Graph::new();
    let a = g.leaf(1.5);
    let two = g.leaf(2.0);
    let three = g.leaf(3.0);
    let p = g.mul(a, two);
    let q = g.mul(a, three);
    let d = g.add(p, q);
    let order = g.build_order(d);
    assert_eq!(order, vec![a, two, p, three, q, d]);
    let grad = gradients(&g, d);
    assert_eq!(grad[a], 5.0);
    // Both steps into `a` come before any step out of `a` (there are none).
    let plan = g.backward_plan(d);
    assert_eq!(plan.iter().filter(|s| s.operand == a).count(), 2);
}

#[test]
fn self_sum_counts_twice() {
    let mut g: Graph<f64> = Graph::new();
    let a = g.leaf(3.0);
    let b = g.add(a, a);
    assert_eq!(gradients(&g, b)[a], 2.0);
    assert_eq!(g.build_order(b), vec![a, b]);
}

#[test]
fn build_order_skips_unreachable_nodes() {
    let mut g: Graph<f64> = Graph::new();
    let a = g.leaf(1.0);
    let unused = g.leaf(9.0);
    let b = g.neg(a);
    let order = g.build_order(b);
    assert_eq!(order, vec![a, b]);
    assert!(!order.contains(&unused));
    assert_eq!(g.build_order(a), vec![a]);
    assert!(g.backward_plan(a).is_empty());
}

#[test]
fn construction_keeps_operands() {
    let mut g: Graph<f64> = Graph::new();
    let a = g.leaf(2.0);
    let b = g.leaf(3.0);
    let _ = g.mul(a, b);
    let _ = g.relu(a);
    assert!(matches!(g.node(a), Node::Leaf(x) if x == 2.0));
    assert!(matches!(g.node(b), Node::Leaf(x) if x == 3.0));
    assert_eq!(g.len(), 4);
}

#[test]
fn plan_reads_each_gradient_after_all_writes() {
    let mut g: Graph<f64> = Graph::new();
    let a = g.leaf(-4.0);
    let b = g.leaf(2.0);
    let c = g.add(a, b);
    let d = g.mul(c, a);
    let e = g.add(d, c);
    let plan = g.backward_plan(e);
    for (i, s) in plan.iter().enumerate() {
        for (j, t) in plan.iter().enumerate() {
            if t.operand == s.node {
                assert!(j < i);
            }
        }
    }
}
