use backprop::scalar::Scalar;
use backprop::text::{decimal_string, push_decimal};
use backprop::value::{build_topological_graph, Graph, Value, ValueOp};

/// Double-precision numbers as the scalars of a graph.
#[derive(Clone, Copy, Debug, PartialEq)]
struct Real(f64);

impl Scalar for Real {
    fn zero_spec() -> Self {
        Real(0.0)
    }
    fn one_spec() -> Self {
        Real(1.0)
    }
    fn add_spec(self, rhs: Self) -> Self {
        Real(self.0 + rhs.0)
    }
    fn sub_spec(self, rhs: Self) -> Self {
        Real(self.0 - rhs.0)
    }
    fn mul_spec(self, rhs: Self) -> Self {
        Real(self.0 * rhs.0)
    }
    fn div_spec(self, rhs: Self) -> Self {
        Real(self.0 / rhs.0)
    }
    fn relu_spec(self) -> Self {
        Real(self.0.max(0.0))
    }
    fn zero() -> Self {
        Real(0.0)
    }
    fn one() -> Self {
        Real(1.0)
    }
    fn add(self, rhs: Self) -> Self {
        Real(self.0 + rhs.0)
    }
    fn sub(self, rhs: Self) -> Self {
        Real(self.0 - rhs.0)
    }
    fn mul(self, rhs: Self) -> Self {
        Real(self.0 * rhs.0)
    }
    fn div(self, rhs: Self) -> Self {
        Real(self.0 / rhs.0)
    }
    fn relu(self) -> Self {
        Real(self.0.max(0.0))
    }
}

fn round_to_places(value: f64, places: u32) -> f64 {
    let factor = 10f64.powi(places as i32);
    (value * factor).round() / factor
}

#[test]
fn simple_addition_on_values() {
    let mut g: Graph<Real> = Graph::new();
    // Initial addition
    let x = Value::new(&mut g, Real(1.0));
    let w = Value::new(&mut g, Real(2.0));

    // Keep a handle of x to assert on the gradient later
    let x_clone = x.clone();

    let y = x.add(&mut g, &w);
    assert_eq!(y.get_data(&g).0, 3.0);

    // Keep a handle of y to perform the backward pass
    let y_clone = y.clone();

    // Subsequent addition
    let ten = Value::new(&mut g, Real(10.0));
    let z = y.add(&mut g, &ten);
    assert_eq!(z.get_data(&g).0, 13.0);

    // We start from z as it's the root node.
    z.run_grad(&mut g);

    assert_eq!(g.node(&x_clone).gradient.0, 1.0);
    assert_eq!(g.node(&y_clone).gradient.0, 1.0);
}

#[test]
fn addition_references() {
    let mut g: Graph<Real> = Graph::new();
    let x = &Value::new(&mut g, Real(1.0));
    let w = &Value::new(&mut g, Real(2.0));

    let y = x.add(&mut g, w);

    let ten = Value::new(&mut g, Real(10.0));
    let z = (&y).add(&mut g, &ten);

    z.run_grad(&mut g);

    assert_eq!(x.get_gradient(&g).0, 1.0);
    assert_eq!(y.get_gradient(&g).0, 1.0);
}

#[test]
fn simple_subtraction_on_values() {
    let mut g: Graph<Real> = Graph::new();
    let x = Value::new(&mut g, Real(11.0));
    let w = Value::new(&mut g, Real(2.0));

    let x_1 = x.clone();

    let y = x.sub(&mut g, &w);

    assert_eq!(y.get_data(&g).0, 9.0);

    y.run_grad(&mut g);

    assert_eq!(x_1.get_gradient(&g).0, 1.0);
}

#[test]
fn subtraction_references() {
    let mut g: Graph<Real> = Graph::new();
    let x = &Value::new(&mut g, Real(50.5));
    let w = &Value::new(&mut g, Real(20.0));

    let y = x.sub(&mut g, w);

    let half = Value::new(&mut g, Real(0.5));
    let z = (&y).sub(&mut g, &half);
    assert_eq!(z.get_data(&g).0, 30.0);

    z.run_grad(&mut g);

    assert_eq!(x.get_gradient(&g).0, 1.0);
    assert_eq!(y.get_gradient(&g).0, 1.0);
}

#[test]
fn simple_multiplication_on_values() {
    let mut g: Graph<Real> = Graph::new();
    let x = Value::new(&mut g, Real(10.0));
    let w = Value::new(&mut g, Real(20.0));

    let x_1 = x.clone();
    let w_1 = w.clone();

    let y = x.mul(&mut g, &w);

    y.run_grad(&mut g);

    assert_eq!(x_1.get_gradient(&g).0, 20.0);
    assert_eq!(w_1.get_gradient(&g).0, 10.0);
}

#[test]
fn multiplication_references() {
    let mut g: Graph<Real> = Graph::new();
    let x = &Value::new(&mut g, Real(10.0));
    let w = &Value::new(&mut g, Real(20.0));

    let y = x.mul(&mut g, w);

    assert_eq!(y.get_data(&g).0, 200.0);
    assert_eq!(x.get_gradient(&g).0, 0.0);

    y.run_grad(&mut g);

    assert_eq!(x.get_gradient(&g).0, 20.0);
    assert_eq!(w.get_gradient(&g).0, 10.0);
}

#[test]
fn simple_div_on_values() {
    let mut g: Graph<Real> = Graph::new();
    let x = Value::new(&mut g, Real(100.0));
    let w = Value::new(&mut g, Real(2.0));

    let x_1 = x.clone();
    let w_1 = w.clone();

    let y = x.div(&mut g, &w);

    assert_eq!(y.get_data(&g).0, 50.0);
    assert_eq!(x_1.get_gradient(&g).0, 0.0);

    y.run_grad(&mut g);

    assert_eq!(x_1.get_gradient(&g).0, 0.5);
    assert_eq!(w_1.get_gradient(&g).0, -25.0);
}

#[test]
fn div_on_references() {
    let mut g: Graph<Real> = Graph::new();
    let x = &Value::new(&mut g, Real(100.0));
    let w = &Value::new(&mut g, Real(2.0));

    let y = x.div(&mut g, w);

    assert_eq!(y.get_data(&g).0, 50.0);
    assert_eq!(x.get_gradient(&g).0, 0.0);

    y.run_grad(&mut g);

    assert_eq!(x.get_gradient(&g).0, 0.5);
    assert_eq!(w.get_gradient(&g).0, -25.0);
}

#[test]
fn test_backward_pass_chained_operations() {
    let mut g: Graph<Real> = Graph::new();
    let a = Value::new(&mut g, Real(4.0));
    let b = Value::new(&mut g, Real(2.0));

    // Perform chained operations
    let c = a.clone().add(&mut g, &b.clone()); // c = a + b = 6
    let d = c.clone().mul(&mut g, &b.clone()); // d = c * b = 12
    let z = d.clone().div(&mut g, &a.clone()); // z = d / a = 3

    z.run_grad(&mut g);

    assert_eq!(g.node(&a).gradient.0, -0.25, "Expected a.gradient to be -0.25");
    assert_eq!(g.node(&b).gradient.0, 2.0, "Expected b.gradient to be 2.0");
}

#[test]
fn test_build_topological_graph() {
    let mut g: Graph<Real> = Graph::new();
    let a = Value::new(&mut g, Real(4.0));
    let b = Value::new(&mut g, Real(2.0));

    // Perform chained operations
    let c = a.clone().add(&mut g, &b.clone()); // c = a + b = 6
    let d = c.clone().mul(&mut g, &b.clone()); // d = c * b = 12
    let z = d.clone().div(&mut g, &a.clone()); // z = d / a = 3

    let topological_graph = build_topological_graph(&g, &z);

    let expected_order = vec![4.0, 2.0, 6.0, 12.0, 3.0];

    let actual_order: Vec<f64> = topological_graph.iter().map(|n| g.node(n).data.0).collect();

    assert_eq!(expected_order, actual_order);
}

#[test]
fn test_backward_pass_harder_case() {
    let mut g: Graph<Real> = Graph::new();
    // Create initial values
    let a = Value::new_with_id(&mut g, Real(2.0), "a");
    let b = Value::new_with_id(&mut g, Real(3.0), "b");

    // Perform chained operations
    let c = a.clone().add(&mut g, &b.clone()); // c = a + b
    c.set_id(&mut g, "c");

    let b_minus_a = b.clone().sub(&mut g, &a.clone());
    let d = c.clone().mul(&mut g, &b_minus_a); // d = c * (b - a)
    d.set_id(&mut g, "d");

    let z = d.clone().div(&mut g, &b.clone()); // z = d / b
    z.set_id(&mut g, "z");

    // Forward pass checks
    assert_eq!(g.node(&c).data.0, 5.0, "Expected c.data to be 5.0");
    assert_eq!(g.node(&d).data.0, 5.0, "Expected d.data to be 5.0");
    assert_eq!(g.node(&z).data.0, 5.0 / 3.0, "Expected z.data to be 5.0 / 3.0");

    z.run_grad(&mut g);

    // Backward pass checks
    assert_eq!(g.node(&z).gradient.0, 1.0, "z.gradient should be 1.0");
    assert_eq!(round_to_places(g.node(&c).gradient.0, 2), 0.33, "c.gradient should be 0.33");
    assert_eq!(round_to_places(g.node(&b).gradient.0, 2), 1.44, "b.gradient should be 1.44");
    assert_eq!(round_to_places(g.node(&a).gradient.0, 2), -1.33, "a.gradient should be -1.33");
}

#[test]
fn operator_symbols() {
    assert_eq!(ValueOp::Addition.to_str(), "+");
    assert_eq!(ValueOp::Subtraction.to_str(), "-");
    assert_eq!(ValueOp::Multiplication.to_str(), "*");
    assert_eq!(ValueOp::Division.to_str(), "/");
    assert_eq!(ValueOp::Leaf.to_str(), "none");
}

#[test]
fn a_new_leaf_has_nothing_accumulated() {
    let mut g: Graph<Real> = Graph::new();
    let a = Value::new(&mut g, Real(7.5));
    let b = Value::new_from_ref(&mut g, &Real(-1.0));
    assert_eq!(a.get_data(&g).0, 7.5);
    assert_eq!(b.get_data(&g).0, -1.0);
    assert_eq!(a.get_gradient(&g).0, 0.0);
    assert_eq!(a.get_operation(&g), ValueOp::Leaf);
    assert!(g.node(&a).ancestors.is_empty());
    assert_eq!(a.index, 0);
    assert_eq!(b.index, 1);
}

#[test]
fn operators_record_operands_in_order() {
    let mut g: Graph<Real> = Graph::new();
    let a = Value::new(&mut g, Real(8.0));
    let b = Value::new(&mut g, Real(2.0));
    let sum = a.add(&mut g, &b);
    let difference = a.sub(&mut g, &b);
    let product = a.mul(&mut g, &b);
    let quotient = a.div(&mut g, &b);
    let reversed = b.sub(&mut g, &a);
    assert_eq!(sum.get_data(&g).0, 10.0);
    assert_eq!(difference.get_data(&g).0, 6.0);
    assert_eq!(product.get_data(&g).0, 16.0);
    assert_eq!(quotient.get_data(&g).0, 4.0);
    assert_eq!(reversed.get_data(&g).0, -6.0);
    assert_eq!(sum.get_operation(&g), ValueOp::Addition);
    assert_eq!(difference.get_operation(&g), ValueOp::Subtraction);
    assert_eq!(product.get_operation(&g), ValueOp::Multiplication);
    assert_eq!(quotient.get_operation(&g), ValueOp::Division);
    assert_eq!(g.node(&difference).ancestors, vec![a, b]);
    assert_eq!(g.node(&reversed).ancestors, vec![b, a]);
    // Nothing is differentiated while the graph is built.
    assert_eq!(a.get_gradient(&g).0, 0.0);
    assert_eq!(b.get_gradient(&g).0, 0.0);
    assert_eq!(sum.get_gradient(&g).0, 0.0);
}

#[test]
fn backward_applies_the_local_rule_once() {
    let mut g: Graph<Real> = Graph::new();
    let a = Value::new(&mut g, Real(6.0));
    let b = Value::new(&mut g, Real(3.0));
    let q = a.div(&mut g, &b);
    q.set_gradient(&mut g, Real(2.0));
    q.backward(&mut g);
    // (1 / 3) * 2 and -(6 / 9) * 2
    assert_eq!(a.get_gradient(&g).0, (1.0 / 3.0) * 2.0);
    assert_eq!(b.get_gradient(&g).0, 0.0 - (6.0 / 9.0) * 2.0);
    assert_eq!(q.get_gradient(&g).0, 2.0);

    let d = a.sub(&mut g, &b);
    d.set_gradient(&mut g, Real(5.0));
    a.set_gradient(&mut g, Real(0.0));
    b.set_gradient(&mut g, Real(0.0));
    d.backward(&mut g);
    assert_eq!(a.get_gradient(&g).0, 5.0);
    assert_eq!(b.get_gradient(&g).0, -5.0);

    // A leaf hands nothing back.
    a.backward(&mut g);
    assert_eq!(a.get_gradient(&g).0, 5.0);
    assert_eq!(b.get_gradient(&g).0, -5.0);
}

#[test]
fn set_gradient_overwrites_and_accumulate_adds() {
    let mut g: Graph<Real> = Graph::new();
    let a = Value::new(&mut g, Real(1.0));
    a.set_gradient(&mut g, Real(3.0));
    a.set_gradient(&mut g, Real(4.0));
    assert_eq!(a.get_gradient(&g).0, 4.0);
    a.accumulate_gradient(&mut g, Real(0.5));
    a.accumulate_gradient(&mut g, Real(0.25));
    assert_eq!(a.get_gradient(&g).0, 4.75);
    assert_eq!(a.get_data(&g).0, 1.0);
}

#[test]
fn the_chain_rule_on_a_worked_example() {
    let mut g: Graph<Real> = Graph::new();
    let a = Value::new(&mut g, Real(4.0));
    let b = Value::new(&mut g, Real(2.0));
    let c = a.add(&mut g, &b);
    let d = c.mul(&mut g, &b);
    let z = d.div(&mut g, &a);
    assert_eq!(c.get_data(&g).0, 6.0);
    assert_eq!(d.get_data(&g).0, 12.0);
    assert_eq!(z.get_data(&g).0, 3.0);

    z.run_grad(&mut g);

    assert_eq!(z.get_gradient(&g).0, 1.0);
    assert_eq!(d.get_gradient(&g).0, 0.25);
    assert_eq!(c.get_gradient(&g).0, 0.5);
    assert_eq!(a.get_gradient(&g).0, -0.25);
    assert_eq!(b.get_gradient(&g).0, 2.0);
}

#[test]
fn handles_and_stored_nodes() {
    let mut g: Graph<Real> = Graph::new();
    let a = Value::new(&mut g, Real(4.0));
    let b = Value::new(&mut g, Real(2.0));
    let c = a.add(&mut g, &b);
    assert!(g.contains(&a));
    assert!(g.contains(&c));
    assert!(!g.contains(&Value { index: 3 }));
    let copy = g.node(&c).clone();
    assert_eq!(copy.data, Real(6.0));
    assert_eq!(copy.gradient, Real(0.0));
    assert_eq!(copy.ancestors, vec![a, b]);
    assert_eq!(copy.operation, ValueOp::Addition);
    assert_eq!(copy.id, "valueid_2");
}

#[test]
fn a_shared_leaf_accumulates_both_paths() {
    let mut g: Graph<Real> = Graph::new();
    let x = Value::new(&mut g, Real(3.0));
    let a = Value::new(&mut g, Real(2.0));
    let b = Value::new(&mut g, Real(5.0));
    let left = x.mul(&mut g, &a);
    let right = x.mul(&mut g, &b);
    let z = left.add(&mut g, &right);
    z.run_grad(&mut g);
    // 2 from one path and 5 from the other.
    assert_eq!(x.get_gradient(&g).0, 7.0);
    assert_eq!(a.get_gradient(&g).0, 3.0);
    assert_eq!(b.get_gradient(&g).0, 3.0);
    assert_eq!(z.get_gradient(&g).0, 1.0);
}

#[test]
fn a_node_used_twice_by_one_node_counts_twice() {
    let mut g: Graph<Real> = Graph::new();
    let x = Value::new(&mut g, Real(3.0));
    let square = x.mul(&mut g, &x);
    square.run_grad(&mut g);
    assert_eq!(x.get_gradient(&g).0, 6.0);

    let mut h: Graph<Real> = Graph::new();
    let y = Value::new(&mut h, Real(3.0));
    let twice = y.add(&mut h, &y);
    twice.run_grad(&mut h);
    assert_eq!(y.get_gradient(&h).0, 2.0);

    let mut k: Graph<Real> = Graph::new();
    let w = Value::new(&mut k, Real(3.0));
    let nothing = w.sub(&mut k, &w);
    nothing.run_grad(&mut k);
    assert_eq!(w.get_gradient(&k).0, 0.0);
}

#[test]
fn a_second_pass_adds_to_the_first() {
    let mut g: Graph<Real> = Graph::new();
    let x = Value::new(&mut g, Real(10.0));
    let w = Value::new(&mut g, Real(20.0));
    let y = x.mul(&mut g, &w);
    y.run_grad(&mut g);
    y.run_grad(&mut g);
    assert_eq!(y.get_gradient(&g).0, 1.0);
    assert_eq!(x.get_gradient(&g).0, 40.0);
    assert_eq!(w.get_gradient(&g).0, 20.0);
}

#[test]
fn a_pass_leaves_unreached_nodes_alone() {
    let mut g: Graph<Real> = Graph::new();
    let a = Value::new(&mut g, Real(1.0));
    let b = Value::new(&mut g, Real(2.0));
    let c = a.add(&mut g, &b);
    let other = Value::new(&mut g, Real(9.0));
    let above = c.mul(&mut g, &other);
    other.set_gradient(&mut g, Real(0.5));
    above.set_gradient(&mut g, Real(0.25));
    c.run_grad(&mut g);
    assert_eq!(other.get_gradient(&g).0, 0.5);
    assert_eq!(above.get_gradient(&g).0, 0.25);
    assert_eq!(c.get_gradient(&g).0, 1.0);
    assert_eq!(a.get_gradient(&g).0, 1.0);
    assert_eq!(b.get_gradient(&g).0, 1.0);
}

#[test]
fn the_order_of_a_diamond_is_topological() {
    let mut g: Graph<Real> = Graph::new();
    let a = Value::new(&mut g, Real(1.0));
    let b = Value::new(&mut g, Real(2.0));
    let unused = Value::new(&mut g, Real(3.0));
    let shared = a.add(&mut g, &b);
    let left = shared.mul(&mut g, &a);
    let right = b.sub(&mut g, &shared);
    let top = right.div(&mut g, &left);

    let order = build_topological_graph(&g, &top);
    // right is walked first: b, then shared with a before it.
    assert_eq!(order, vec![b, a, shared, right, left, top]);
    assert!(!order.contains(&unused));
    for (place, node) in order.iter().enumerate() {
        assert_eq!(order.iter().filter(|other| *other == node).count(), 1);
        for operand in g.node(node).ancestors.iter() {
            let before = order.iter().position(|other| other == operand);
            assert!(matches!(before, Some(at) if at < place));
        }
    }

    // A leaf reaches itself alone.
    assert_eq!(build_topological_graph(&g, &unused), vec![unused]);
}

#[test]
fn clearing_makes_a_leaf_and_cuts_the_edges() {
    let mut g: Graph<Real> = Graph::new();
    let a = Value::new(&mut g, Real(4.0));
    let b = Value::new(&mut g, Real(2.0));
    let c = a.add(&mut g, &b);
    let d = c.mul(&mut g, &b);
    d.run_grad(&mut g);
    assert_eq!(a.get_gradient(&g).0, 2.0);
    assert_eq!(c.get_gradient(&g).0, 2.0);

    c.clear_gradient(&mut g);
    assert_eq!(c.get_gradient(&g).0, 0.0);
    assert_eq!(c.get_data(&g).0, 6.0);
    assert_eq!(c.get_operation(&g), ValueOp::Leaf);
    assert!(g.node(&c).ancestors.is_empty());
    assert_eq!(c.get_id(&g), "valueid_2");
    // Clearing again changes nothing.
    c.clear_gradient(&mut g);
    assert_eq!(c.get_gradient(&g).0, 0.0);
    assert_eq!(c.get_operation(&g), ValueOp::Leaf);

    a.clear_gradient(&mut g);
    b.clear_gradient(&mut g);
    assert_eq!(build_topological_graph(&g, &d), vec![c, b, d]);
    d.run_grad(&mut g);
    // The pass stops at c: a is no longer reached.
    assert_eq!(a.get_gradient(&g).0, 0.0);
    assert_eq!(c.get_gradient(&g).0, 2.0);
    assert_eq!(b.get_gradient(&g).0, 6.0);
}

#[test]
fn division_by_zero_is_not_guarded() {
    let mut g: Graph<Real> = Graph::new();
    let x = Value::new(&mut g, Real(1.0));
    let zero = Value::new(&mut g, Real(0.0));
    let q = x.div(&mut g, &zero);
    assert_eq!(q.get_data(&g).0, f64::INFINITY);
    q.run_grad(&mut g);
    assert_eq!(x.get_gradient(&g).0, f64::INFINITY);
    assert_eq!(zero.get_gradient(&g).0, f64::NEG_INFINITY);

    let nothing = zero.div(&mut g, &zero);
    assert!(nothing.get_data(&g).0.is_nan());
    nothing.run_grad(&mut g);
    assert!(zero.get_gradient(&g).0.is_nan());
}

#[test]
fn names_can_be_chosen_and_changed() {
    let mut g: Graph<Real> = Graph::new();
    let a = Value::new_with_id(&mut g, Real(2.0), "a");
    let b = Value::new_with_id(&mut g, Real(3.0), "a");
    assert_eq!(a.get_id(&g), "a");
    assert_eq!(b.get_id(&g), "a");
    // Equal names and equal numbers do not make two nodes one.
    let c = a.add(&mut g, &b);
    assert_eq!(build_topological_graph(&g, &c), vec![a, b, c]);
    b.set_id(&mut g, "b");
    assert_eq!(b.get_id(&g), "b");
    assert_eq!(b.get_data(&g).0, 3.0);
}

#[test]
fn default_names_count_positions() {
    let mut g: Graph<Real> = Graph::new();
    let a = Value::new(&mut g, Real(1.0));
    let mut last = a;
    for _ in 0..12 {
        last = last.add(&mut g, &a);
    }
    assert_eq!(a.get_id(&g), "valueid_0");
    assert_eq!(last.get_id(&g), "valueid_12");
    assert_eq!(last.index, 12);
    assert_eq!(g.len(), 13);
}

#[test]
fn numerals() {
    assert_eq!(decimal_string(0), "0");
    assert_eq!(decimal_string(7), "7");
    assert_eq!(decimal_string(10), "10");
    assert_eq!(decimal_string(1234567890), "1234567890");
    let mut text = String::from("N");
    push_decimal(&mut text, 405);
    assert_eq!(text, "N405");
}
