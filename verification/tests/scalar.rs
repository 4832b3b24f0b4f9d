use micro_grad::text::{compose_display, decimal, enclose, join};
use micro_grad::{Graph, Op, Scalar, Value};

fn close(actual: f64, expected: f64) -> bool {
    (actual - expected).abs() < 1e-9
}

#[test]
fn new_graph_is_empty() {
    let graph: Graph<f64> = Graph::new();
    assert_eq!(graph.len(), 0);
    assert_eq!(graph.zero, 0.0);
    assert_eq!(graph.one, 1.0);
}

#[test]
fn leaf_starts_with_zero_grad_and_empty_label() {
    let mut graph: Graph<f64> = Graph::new();
    let a = Scalar::new(&mut graph, 2.5);
    assert_eq!(a.id, 0);
    assert_eq!(graph.len(), 1);
    assert_eq!(a.get_data(&graph), 2.5);
    assert_eq!(a.get_grad(&graph), 0.0);
    assert_eq!(a.get_label(&graph), "");
    assert!(matches!(graph.nodes[0].op, Op::Leaf));
    assert!(graph.nodes[0].producers.is_empty());
}

#[test]
fn value_new_is_a_detached_leaf() {
    let value: Value<f64> = Value::new(7.0);
    assert_eq!(value.data, 7.0);
    assert_eq!(value.grad, 0.0);
    assert_eq!(value.label, "");
    assert!(matches!(value.op, Op::Leaf));
    assert!(value.producers.is_empty());
    let mut graph: Graph<f64> = Graph::new();
    let handle = graph.push(value);
    assert_eq!(handle.id, 0);
    assert_eq!(handle.get_data(&graph), 7.0);
}

#[test]
fn new_with_label_names_the_leaf() {
    let mut graph: Graph<f64> = Graph::new();
    let b = Scalar::new_with_label(&mut graph, 6.8814, "b");
    assert_eq!(b.get_label(&graph), "b");
    assert_eq!(b.get_data(&graph), 6.8814);
    assert_eq!(b.get_grad(&graph), 0.0);
}

#[test]
fn set_label_changes_only_the_label() {
    let mut graph: Graph<f64> = Graph::new();
    let a = Scalar::new(&mut graph, 3.0);
    a.set_grad(&mut graph, 0.25);
    a.set_label(&mut graph, "a");
    assert_eq!(a.get_label(&graph), "a");
    assert_eq!(a.get_data(&graph), 3.0);
    assert_eq!(a.get_grad(&graph), 0.25);
    assert_eq!(graph.len(), 1);
}

#[test]
fn copies_of_a_scalar_name_the_same_node() {
    let mut graph: Graph<f64> = Graph::new();
    let a = Scalar::new(&mut graph, 1.0);
    let same = a;
    let other = Scalar::new(&mut graph, 1.0);
    assert_eq!(a, same);
    assert_ne!(a, other);
    same.set_data(&mut graph, 5.0);
    assert_eq!(a.get_data(&graph), 5.0);
    assert_eq!(other.get_data(&graph), 1.0);
}

#[test]
fn binary_operations_compute_their_data() {
    let mut graph: Graph<f64> = Graph::new();
    let a = Scalar::new(&mut graph, 2.0);
    let b = Scalar::new(&mut graph, 4.0);
    let sum = a.add(&mut graph, &b);
    let product = a.mul(&mut graph, &b);
    let difference = a.sub(&mut graph, &b);
    let quotient = a.div(&mut graph, &b);
    assert_eq!(sum.get_data(&graph), 6.0);
    assert_eq!(product.get_data(&graph), 8.0);
    assert_eq!(difference.get_data(&graph), -2.0);
    assert_eq!(quotient.get_data(&graph), 0.5);
}

#[test]
fn operations_leave_their_operands_alone() {
    let mut graph: Graph<f64> = Graph::new();
    let a = Scalar::new_with_label(&mut graph, 2.0, "a");
    let b = Scalar::new_with_label(&mut graph, 4.0, "b");
    a.sub(&mut graph, &b);
    a.div(&mut graph, &b);
    assert_eq!(a.get_data(&graph), 2.0);
    assert_eq!(b.get_data(&graph), 4.0);
    assert_eq!(a.get_grad(&graph), 0.0);
    assert_eq!(b.get_grad(&graph), 0.0);
    assert_eq!(a.get_label(&graph), "a");
    assert_eq!(b.get_label(&graph), "b");
}

#[test]
fn add_records_its_producers() {
    let mut graph: Graph<f64> = Graph::new();
    let a = Scalar::new(&mut graph, 2.0);
    let b = Scalar::new(&mut graph, 4.0);
    let sum = a.add(&mut graph, &b);
    assert_eq!(sum.id, 2);
    assert!(matches!(graph.nodes[2].op, Op::Add));
    assert_eq!(graph.nodes[2].producers, vec![0, 1]);
    assert_eq!(sum.get_grad(&graph), 0.0);
}

#[test]
fn mul_records_its_producers() {
    let mut graph: Graph<f64> = Graph::new();
    let a = Scalar::new(&mut graph, 2.0);
    let b = Scalar::new(&mut graph, 4.0);
    let product = b.mul(&mut graph, &a);
    assert!(matches!(graph.nodes[2].op, Op::Mul));
    assert_eq!(graph.nodes[2].producers, vec![1, 0]);
    assert_eq!(product.get_data(&graph), 8.0);
}

#[test]
fn labels_are_composed_from_the_operands() {
    let mut graph: Graph<f64> = Graph::new();
    let a = Scalar::new_with_label(&mut graph, 2.0, "a");
    let b = Scalar::new_with_label(&mut graph, 4.0, "b");
    let sum = a.add(&mut graph, &b);
    let product = a.mul(&mut graph, &b);
    let difference = a.sub(&mut graph, &b);
    let negation = a.neg(&mut graph);
    let power = a.pow(&mut graph, 2.0);
    let exponential = a.exp(&mut graph);
    let tangent = a.tanh(&mut graph);
    let quotient = a.div(&mut graph, &b);
    assert_eq!(sum.get_label(&graph), "(a + b)");
    assert_eq!(product.get_label(&graph), "(a * b)");
    assert_eq!(difference.get_label(&graph), "(a - b)");
    assert_eq!(negation.get_label(&graph), "(not a)");
    assert_eq!(power.get_label(&graph), "(a^2)");
    assert_eq!(exponential.get_label(&graph), "exp(a)");
    assert_eq!(tangent.get_label(&graph), "tanh(a)");
    assert_eq!(quotient.get_label(&graph), "(a * (b^-1))");
    let nested = sum.mul(&mut graph, &tangent);
    assert_eq!(nested.get_label(&graph), "((a + b) * tanh(a))");
}

#[test]
fn add_number_adds_a_constant_leaf() {
    let mut graph: Graph<f64> = Graph::new();
    let x = Scalar::new_with_label(&mut graph, 2.0, "x");
    let number = x.add_number(&mut graph, 1.0);
    assert_eq!(graph.len(), 3);
    assert_eq!(number.id, 2);
    assert_eq!(number.get_data(&graph), 3.0);
    assert_eq!(number.get_grad(&graph), 0.0);
    assert_eq!(graph.nodes[1].data, 1.0);
    assert_eq!(graph.nodes[1].label, "(Constant 1)");
    assert!(matches!(graph.nodes[1].op, Op::Leaf));
    assert_eq!(graph.nodes[2].producers, vec![0, 1]);
    assert_eq!(number.get_label(&graph), "(x + (Constant 1))");
}

#[test]
fn mul_number_multiplies_by_a_constant_leaf() {
    let mut graph: Graph<f64> = Graph::new();
    let x = Scalar::new_with_label(&mut graph, 2.0, "x");
    let doubled = x.mul_number(&mut graph, 2.5);
    assert_eq!(graph.len(), 3);
    assert_eq!(doubled.get_data(&graph), 5.0);
    assert_eq!(graph.nodes[1].label, "(Constant 2.5)");
    assert!(matches!(graph.nodes[2].op, Op::Mul));
    assert_eq!(doubled.get_label(&graph), "(x * (Constant 2.5))");
}

#[test]
fn neg_is_a_product_with_minus_one() {
    let mut graph: Graph<f64> = Graph::new();
    let a = Scalar::new_with_label(&mut graph, 3.0, "a");
    let negation = a.neg(&mut graph);
    assert_eq!(graph.len(), 3);
    assert_eq!(graph.nodes[1].data, -1.0);
    assert_eq!(graph.nodes[1].label, "(Constant -1)");
    assert!(matches!(graph.nodes[2].op, Op::Mul));
    assert_eq!(graph.nodes[2].producers, vec![0, 1]);
    assert_eq!(negation.get_data(&graph), -3.0);
}

#[test]
fn sub_is_a_sum_with_the_negation() {
    let mut graph: Graph<f64> = Graph::new();
    let a = Scalar::new_with_label(&mut graph, 2.0, "a");
    let b = Scalar::new_with_label(&mut graph, 4.0, "b");
    let difference = a.sub(&mut graph, &b);
    assert_eq!(graph.len(), 5);
    assert_eq!(difference.id, 4);
    assert_eq!(graph.nodes[2].data, -1.0);
    assert!(matches!(graph.nodes[3].op, Op::Mul));
    assert_eq!(graph.nodes[3].producers, vec![1, 2]);
    assert_eq!(graph.nodes[3].label, "(not b)");
    assert_eq!(graph.nodes[3].data, -4.0);
    assert!(matches!(graph.nodes[4].op, Op::Add));
    assert_eq!(graph.nodes[4].producers, vec![0, 3]);
}

#[test]
fn div_is_a_product_with_the_reciprocal() {
    let mut graph: Graph<f64> = Graph::new();
    let a = Scalar::new_with_label(&mut graph, 2.0, "a");
    let b = Scalar::new_with_label(&mut graph, 4.0, "b");
    let quotient = a.div(&mut graph, &b);
    assert_eq!(graph.len(), 4);
    assert_eq!(quotient.id, 3);
    assert!(matches!(graph.nodes[2].op, Op::Pow { exponent } if exponent == -1.0));
    assert_eq!(graph.nodes[2].producers, vec![1]);
    assert_eq!(graph.nodes[2].data, 0.25);
    assert!(matches!(graph.nodes[3].op, Op::Mul));
    assert_eq!(graph.nodes[3].producers, vec![0, 2]);
}

#[test]
fn division_by_zero_is_not_refused() {
    let mut graph: Graph<f64> = Graph::new();
    let a = Scalar::new(&mut graph, 1.0);
    let zero = Scalar::new(&mut graph, 0.0);
    let quotient = a.div(&mut graph, &zero);
    assert!(quotient.get_data(&graph).is_infinite());
    let nothing = zero.div(&mut graph, &zero);
    assert!(nothing.get_data(&graph).is_nan());
}

#[test]
fn exp_computes_the_exponential() {
    let mut graph: Graph<f64> = Graph::new();
    let x = Scalar::new(&mut graph, 2.0);
    let e = x.exp(&mut graph);
    assert!(close(e.get_data(&graph), 7.38905609893065));
    assert!(matches!(graph.nodes[1].op, Op::Exp));
    assert_eq!(graph.nodes[1].producers, vec![0]);
}

#[test]
fn tanh_computes_the_hyperbolic_tangent() {
    let mut graph: Graph<f64> = Graph::new();
    let x = Scalar::new(&mut graph, 0.8814);
    let t = x.tanh(&mut graph);
    assert!((t.get_data(&graph) - 0.7071).abs() < 1e-4);
    assert!(matches!(graph.nodes[1].op, Op::Tanh));
    assert_eq!(graph.nodes[1].producers, vec![0]);
}

#[test]
fn pow_raises_to_a_fixed_exponent() {
    let mut graph: Graph<f64> = Graph::new();
    let x = Scalar::new(&mut graph, 3.0);
    let square = x.pow(&mut graph, 2.0);
    assert_eq!(square.get_data(&graph), 9.0);
    assert!(matches!(graph.nodes[1].op, Op::Pow { exponent } if exponent == 2.0));
    assert_eq!(graph.nodes[1].producers, vec![0]);
}

#[test]
fn pow_of_a_negative_base_with_a_fraction_is_not_a_number() {
    let mut graph: Graph<f64> = Graph::new();
    let x = Scalar::new(&mut graph, -8.0);
    let root = x.pow(&mut graph, 0.5);
    assert!(root.get_data(&graph).is_nan());
}

#[test]
fn zero_grad_resets_only_its_own_node() {
    let mut graph: Graph<f64> = Graph::new();
    let a = Scalar::new(&mut graph, 3.0);
    let b = a.add(&mut graph, &a);
    b.back_prop(&mut graph);
    assert_eq!(a.get_grad(&graph), 2.0);
    assert_eq!(b.get_grad(&graph), 1.0);
    b.zero_grad(&mut graph);
    assert_eq!(b.get_grad(&graph), 0.0);
    assert_eq!(a.get_grad(&graph), 2.0);
    assert_eq!(a.get_data(&graph), 3.0);
}

#[test]
fn add_to_data_updates_in_place_and_leaves_results_stale() {
    let mut graph: Graph<f64> = Graph::new();
    let a = Scalar::new(&mut graph, 3.0);
    let b = a.add(&mut graph, &a);
    a.add_to_data(&mut graph, -0.5);
    assert_eq!(a.get_data(&graph), 2.5);
    assert_eq!(b.get_data(&graph), 6.0);
    assert_eq!(graph.len(), 2);
}

#[test]
fn to_string_shows_four_decimals() {
    let mut graph: Graph<f64> = Graph::new();
    let x = Scalar::new_with_label(&mut graph, 0.8814, "sum");
    let t = x.tanh(&mut graph);
    t.set_label(&mut graph, "tanh");
    t.back_prop(&mut graph);
    assert_eq!(t.to_string(&graph), "tanh { data: 0.7071, grad: 1.0000 }");
    assert_eq!(x.to_string(&graph), "sum { data: 0.8814, grad: 0.5000 }");
}

#[test]
fn decimal_writes_numerals() {
    assert_eq!(decimal(0), "0");
    assert_eq!(decimal(7), "7");
    assert_eq!(decimal(10), "10");
    assert_eq!(decimal(1234567890), "1234567890");
    assert_eq!(decimal(usize::MAX), usize::MAX.to_string());
}

#[test]
fn text_pieces_are_joined_in_order() {
    assert_eq!(enclose("exp(", "x", ")"), "exp(x)");
    assert_eq!(join("(", "a", " + ", "b", ")"), "(a + b)");
    assert_eq!(compose_display("w", "1.0000", "0.5000"), "w { data: 1.0000, grad: 0.5000 }");
}

#[test]
fn graph_knows_its_scalars() {
    let mut graph: Graph<f64> = Graph::new();
    let a = Scalar::new(&mut graph, 1.0);
    let b = a.exp(&mut graph);
    assert!(graph.contains(a));
    assert!(graph.contains(b));
    assert!(!graph.contains(Scalar { id: 2 }));
    assert!(graph.contains_all(&vec![a, b, a]));
    assert!(graph.contains_all(&vec![]));
    assert!(!graph.contains_all(&vec![a, Scalar { id: 7 }, b]));
}

#[test]
fn graphs_made_by_operations_are_well_formed() {
    let mut graph: Graph<f64> = Graph::new();
    assert!(graph.is_well_formed());
    let a = Scalar::new(&mut graph, 1.0);
    let b = a.exp(&mut graph);
    let c = a.sub(&mut graph, &b);
    let d = c.div(&mut graph, &a);
    d.tanh(&mut graph);
    d.pow(&mut graph, 3.0);
    assert!(graph.is_well_formed());
}

#[test]
fn a_node_with_a_producer_that_is_not_before_it_is_not_well_formed() {
    let mut graph: Graph<f64> = Graph::new();
    let a = Scalar::new(&mut graph, 1.0);
    let b = a.exp(&mut graph);
    graph.nodes[b.id].producers[0] = b.id;
    assert!(!graph.is_well_formed());
    graph.nodes[b.id].producers[0] = a.id;
    assert!(graph.is_well_formed());
    graph.nodes[b.id].producers.push(a.id);
    assert!(!graph.is_well_formed());
    graph.nodes[b.id].op = Op::Add;
    assert!(graph.is_well_formed());
    graph.nodes[a.id].op = Op::Tanh;
    assert!(!graph.is_well_formed());
}

#[test]
fn pow_of_zero_with_a_negative_exponent_is_infinite() {
    let mut graph: Graph<f64> = Graph::new();
    let x = Scalar::new(&mut graph, 0.0);
    let reciprocal = x.pow(&mut graph, -1.0);
    assert!(reciprocal.get_data(&graph).is_infinite());
    reciprocal.back_prop(&mut graph);
    assert!(!x.get_grad(&graph).is_finite());
}

#[test]
fn numbers_that_are_not_finite_are_accepted() {
    let mut graph: Graph<f64> = Graph::new();
    let a = Scalar::new(&mut graph, f64::INFINITY);
    let b = Scalar::new(&mut graph, f64::NAN);
    let sum = a.add(&mut graph, &b);
    assert!(sum.get_data(&graph).is_nan());
    let product = a.mul(&mut graph, &a);
    assert_eq!(product.get_data(&graph), f64::INFINITY);
}

#[test]
fn single_precision_numbers_work_too() {
    let mut graph: Graph<f32> = Graph::new();
    let a = Scalar::new(&mut graph, 1.5f32);
    let b = Scalar::new(&mut graph, 2.0f32);
    let c = a.mul(&mut graph, &b);
    c.back_prop(&mut graph);
    assert_eq!(c.get_data(&graph), 3.0f32);
    assert_eq!(a.get_grad(&graph), 2.0f32);
    assert_eq!(b.get_grad(&graph), 1.5f32);
}
