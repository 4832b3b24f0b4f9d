use micro_grad::{Graph, Scalar};

fn near(actual: f64, expected: f64) -> bool {
    (actual - expected).abs() < 1e-4
}

fn close(actual: f64, expected: f64) -> bool {
    (actual - expected).abs() < 1e-9
}

/// The nodes of `x1*w1 + x2*w2 + b` for the usual example.
struct Example {
    x1: Scalar,
    x2: Scalar,
    w1: Scalar,
    w2: Scalar,
    b: Scalar,
    x1w1: Scalar,
    x2w2: Scalar,
    x1w1_x2w2: Scalar,
    sum: Scalar,
}

fn example(graph: &mut Graph<f64>) -> Example {
    let x1 = Scalar::new_with_label(graph, 2.0, "x1");
    let x2 = Scalar::new_with_label(graph, 0.0, "x2");
    let w1 = Scalar::new_with_label(graph, -3.0, "w1");
    let w2 = Scalar::new_with_label(graph, 1.0, "w2");
    let b = Scalar::new_with_label(graph, 6.8814, "b");
    let x1w1 = x1.mul(graph, &w1);
    x1w1.set_label(graph, "x1w1");
    let x2w2 = x2.mul(graph, &w2);
    x2w2.set_label(graph, "x2w2");
    let x1w1_x2w2 = x1w1.add(graph, &x2w2);
    x1w1_x2w2.set_label(graph, "x1w1_x2w2");
    let sum = x1w1_x2w2.add(graph, &b);
    sum.set_label(graph, "sum");
    Example { x1, x2, w1, w2, b, x1w1, x2w2, x1w1_x2w2, sum }
}

#[test]
fn reused_operand_accumulates() {
    let mut graph: Graph<f64> = Graph::new();
    let a = Scalar::new(&mut graph, 3.0);
    let c = a.add(&mut graph, &a);
    c.back_prop(&mut graph);
    assert_eq!(c.get_data(&graph), 6.0);
    assert_eq!(a.get_grad(&graph), 2.0);
    assert_eq!(c.get_grad(&graph), 1.0);
}

#[test]
fn backward_is_back_prop() {
    let mut graph: Graph<f64> = Graph::new();
    let a = Scalar::new(&mut graph, 3.0);
    let c = a.add(&mut graph, &a);
    c.backward(&mut graph);
    assert_eq!(a.get_grad(&graph), 2.0);
    assert_eq!(c.get_grad(&graph), 1.0);
}

#[test]
fn chain_rule_on_the_usual_example() {
    let mut graph: Graph<f64> = Graph::new();
    let e = example(&mut graph);
    let out = e.sum.tanh(&mut graph);
    out.set_label(&mut graph, "tanh");
    out.back_prop(&mut graph);
    assert!(near(out.get_data(&graph), 0.7071));
    assert!(near(e.sum.get_data(&graph), 0.8814));
    assert_eq!(e.x1w1_x2w2.get_data(&graph), -6.0);
    assert_eq!(out.get_grad(&graph), 1.0);
    assert!(near(e.sum.get_grad(&graph), 0.5));
    assert!(near(e.x1w1_x2w2.get_grad(&graph), 0.5));
    assert!(near(e.x2w2.get_grad(&graph), 0.5));
    assert!(near(e.x1w1.get_grad(&graph), 0.5));
    assert!(near(e.b.get_grad(&graph), 0.5));
    assert!(near(e.w1.get_grad(&graph), 1.0));
    assert!(near(e.w2.get_grad(&graph), 0.0));
    assert!(near(e.x1.get_grad(&graph), -1.5));
    assert!(near(e.x2.get_grad(&graph), 0.5));
    assert_eq!(out.to_string(&graph), "tanh { data: 0.7071, grad: 1.0000 }");
    assert_eq!(e.sum.to_string(&graph), "sum { data: 0.8814, grad: 0.5000 }");
    assert_eq!(e.w1.to_string(&graph), "w1 { data: -3.0000, grad: 1.0000 }");
    assert_eq!(e.w2.to_string(&graph), "w2 { data: 1.0000, grad: 0.0000 }");
}

#[test]
fn composed_tanh_agrees_with_tanh() {
    let mut direct: Graph<f64> = Graph::new();
    let d = example(&mut direct);
    let out = d.sum.tanh(&mut direct);
    out.back_prop(&mut direct);

    let mut graph: Graph<f64> = Graph::new();
    let e = example(&mut graph);
    let doubled = e.sum.mul_number(&mut graph, 2.0);
    let raised = doubled.exp(&mut graph);
    let top = raised.add_number(&mut graph, -1.0);
    let doubled_again = e.sum.mul_number(&mut graph, 2.0);
    let raised_again = doubled_again.exp(&mut graph);
    let bottom = raised_again.add_number(&mut graph, 1.0);
    let manual = top.div(&mut graph, &bottom);
    manual.set_label(&mut graph, "manual_tanh");
    manual.back_prop(&mut graph);

    assert!(close(manual.get_data(&graph), out.get_data(&direct)));
    assert_eq!(manual.get_grad(&graph), 1.0);
    assert!(close(e.sum.get_grad(&graph), d.sum.get_grad(&direct)));
    assert!(close(e.x1w1_x2w2.get_grad(&graph), d.x1w1_x2w2.get_grad(&direct)));
    assert!(close(e.x1w1.get_grad(&graph), d.x1w1.get_grad(&direct)));
    assert!(close(e.x2w2.get_grad(&graph), d.x2w2.get_grad(&direct)));
    assert!(close(e.w1.get_grad(&graph), d.w1.get_grad(&direct)));
    assert!(close(e.w2.get_grad(&graph), d.w2.get_grad(&direct)));
    assert!(close(e.x1.get_grad(&graph), d.x1.get_grad(&direct)));
    assert!(close(e.x2.get_grad(&graph), d.x2.get_grad(&direct)));
    assert!(close(e.b.get_grad(&graph), d.b.get_grad(&direct)));
    assert!(near(e.sum.get_grad(&graph), 0.5));
    assert!(near(e.w1.get_grad(&graph), 1.0));
}

#[test]
fn zero_grad_then_backward_is_as_on_a_fresh_graph() {
    let mut fresh: Graph<f64> = Graph::new();
    let f = example(&mut fresh);
    let fresh_out = f.sum.tanh(&mut fresh);
    fresh_out.back_prop(&mut fresh);

    let mut graph: Graph<f64> = Graph::new();
    let e = example(&mut graph);
    let out = e.sum.tanh(&mut graph);
    out.back_prop(&mut graph);
    let count = graph.len();
    for id in 0..count {
        Scalar { id }.zero_grad(&mut graph);
    }
    for id in 0..count {
        assert_eq!(Scalar { id }.get_grad(&graph), 0.0);
    }
    out.back_prop(&mut graph);
    for id in 0..count {
        assert_eq!(Scalar { id }.get_grad(&graph), Scalar { id }.get_grad(&fresh));
    }
}

#[test]
fn a_second_pass_adds_to_the_first() {
    let mut graph: Graph<f64> = Graph::new();
    let a = Scalar::new(&mut graph, 3.0);
    let c = a.add(&mut graph, &a);
    c.back_prop(&mut graph);
    assert_eq!(a.get_grad(&graph), 2.0);
    c.back_prop(&mut graph);
    assert_eq!(a.get_grad(&graph), 4.0);
    assert_eq!(c.get_grad(&graph), 1.0);
}

#[test]
fn a_second_pass_through_two_levels_adds_what_the_middle_holds() {
    let mut graph: Graph<f64> = Graph::new();
    let a = Scalar::new(&mut graph, 1.0);
    let middle = a.add(&mut graph, &a);
    let root = middle.add(&mut graph, &middle);
    root.back_prop(&mut graph);
    assert_eq!(root.get_grad(&graph), 1.0);
    assert_eq!(middle.get_grad(&graph), 2.0);
    assert_eq!(a.get_grad(&graph), 4.0);
    root.back_prop(&mut graph);
    assert_eq!(root.get_grad(&graph), 1.0);
    assert_eq!(middle.get_grad(&graph), 4.0);
    assert_eq!(a.get_grad(&graph), 12.0);
}

#[test]
fn a_node_that_the_root_does_not_depend_on_keeps_its_gradient() {
    let mut graph: Graph<f64> = Graph::new();
    let a = Scalar::new(&mut graph, 3.0);
    let apart = Scalar::new(&mut graph, 5.0);
    apart.set_grad(&mut graph, 0.75);
    let c = a.mul(&mut graph, &a);
    let later = c.add(&mut graph, &apart);
    later.set_grad(&mut graph, 9.0);
    c.back_prop(&mut graph);
    assert_eq!(apart.get_grad(&graph), 0.75);
    assert_eq!(later.get_grad(&graph), 9.0);
    assert_eq!(a.get_grad(&graph), 6.0);
    assert_eq!(c.get_grad(&graph), 1.0);
}

#[test]
fn backward_from_a_leaf_only_seeds_it() {
    let mut graph: Graph<f64> = Graph::new();
    let a = Scalar::new(&mut graph, 3.0);
    let b = Scalar::new(&mut graph, 4.0);
    a.back_prop(&mut graph);
    assert_eq!(a.get_grad(&graph), 1.0);
    assert_eq!(b.get_grad(&graph), 0.0);
}

#[test]
fn product_rule_reads_the_numbers_of_the_moment() {
    let mut graph: Graph<f64> = Graph::new();
    let a = Scalar::new(&mut graph, 2.0);
    let b = Scalar::new(&mut graph, 5.0);
    let c = a.mul(&mut graph, &b);
    a.add_to_data(&mut graph, 8.0);
    c.back_prop(&mut graph);
    assert_eq!(c.get_data(&graph), 10.0);
    assert_eq!(a.get_grad(&graph), 5.0);
    assert_eq!(b.get_grad(&graph), 10.0);
}

#[test]
fn power_rule() {
    let mut graph: Graph<f64> = Graph::new();
    let x = Scalar::new(&mut graph, 3.0);
    let power = x.pow(&mut graph, 2.0);
    power.back_prop(&mut graph);
    assert_eq!(power.get_data(&graph), 9.0);
    assert_eq!(power.get_grad(&graph), 1.0);
    assert_eq!(x.get_grad(&graph), 6.0);
}

#[test]
fn power_rule_with_a_cube() {
    let mut graph: Graph<f64> = Graph::new();
    let x = Scalar::new(&mut graph, 2.0);
    let power = x.pow(&mut graph, 3.0);
    power.back_prop(&mut graph);
    assert!(close(power.get_data(&graph), 8.0));
    assert!(close(x.get_grad(&graph), 12.0));
}

#[test]
fn exponential_rule() {
    let mut graph: Graph<f64> = Graph::new();
    let x = Scalar::new(&mut graph, 2.0);
    let e = x.exp(&mut graph);
    e.back_prop(&mut graph);
    assert!(close(x.get_grad(&graph), 7.38905609893065));
    assert_eq!(x.get_grad(&graph), e.get_data(&graph));
}

#[test]
fn tanh_rule() {
    let mut graph: Graph<f64> = Graph::new();
    let x = Scalar::new(&mut graph, 0.5);
    let t = x.tanh(&mut graph);
    t.back_prop(&mut graph);
    let value = 0.5f64.tanh();
    assert!(close(x.get_grad(&graph), 1.0 - value * value));
}

#[test]
fn division_gradients() {
    let mut graph: Graph<f64> = Graph::new();
    let x = Scalar::new(&mut graph, 2.0);
    let y = Scalar::new(&mut graph, 4.0);
    let quotient = x.div(&mut graph, &y);
    quotient.back_prop(&mut graph);
    assert_eq!(quotient.get_data(&graph), 0.5);
    assert!(close(x.get_grad(&graph), 0.25));
    assert!(close(y.get_grad(&graph), -0.125));
}

#[test]
fn subtraction_gradients() {
    let mut graph: Graph<f64> = Graph::new();
    let x = Scalar::new(&mut graph, 2.0);
    let y = Scalar::new(&mut graph, 4.0);
    let difference = x.sub(&mut graph, &y);
    difference.back_prop(&mut graph);
    assert_eq!(difference.get_data(&graph), -2.0);
    assert_eq!(x.get_grad(&graph), 1.0);
    assert_eq!(y.get_grad(&graph), -1.0);
}

#[test]
fn division_by_zero_gives_gradients_that_are_not_finite() {
    let mut graph: Graph<f64> = Graph::new();
    let x = Scalar::new(&mut graph, 1.0);
    let zero = Scalar::new(&mut graph, 0.0);
    let quotient = x.div(&mut graph, &zero);
    quotient.back_prop(&mut graph);
    assert!(x.get_grad(&graph).is_infinite());
    assert!(!zero.get_grad(&graph).is_finite());
}

#[test]
fn topological_order_puts_producers_first() {
    let mut graph: Graph<f64> = Graph::new();
    let e = example(&mut graph);
    let out = e.sum.tanh(&mut graph);
    let order = graph.topological_order(out);
    assert_eq!(order, vec![0, 2, 5, 1, 3, 6, 7, 4, 8, 9]);
    let partial = graph.topological_order(e.x1w1);
    assert_eq!(partial, vec![0, 2, 5]);
    let leaf = graph.topological_order(e.b);
    assert_eq!(leaf, vec![4]);
}

#[test]
fn topological_order_names_a_shared_node_once() {
    let mut graph: Graph<f64> = Graph::new();
    let a = Scalar::new(&mut graph, 1.0);
    let b = a.add(&mut graph, &a);
    let c = b.mul(&mut graph, &a);
    let d = c.add(&mut graph, &b);
    assert_eq!(graph.topological_order(d), vec![0, 1, 2, 3]);
    assert_eq!(graph.topological_order(b), vec![0, 1]);
}

#[test]
fn propagate_applies_one_rule() {
    let mut graph: Graph<f64> = Graph::new();
    let a = Scalar::new(&mut graph, 2.0);
    let b = Scalar::new(&mut graph, 5.0);
    let c = a.mul(&mut graph, &b);
    let d = c.add(&mut graph, &a);
    c.set_grad(&mut graph, 3.0);
    c.propagate(&mut graph);
    assert_eq!(a.get_grad(&graph), 15.0);
    assert_eq!(b.get_grad(&graph), 6.0);
    assert_eq!(c.get_grad(&graph), 3.0);
    assert_eq!(d.get_grad(&graph), 0.0);
    a.propagate(&mut graph);
    assert_eq!(a.get_grad(&graph), 15.0);
    assert_eq!(b.get_grad(&graph), 6.0);
}

#[test]
fn shared_subexpression_gets_every_contribution_before_it_propagates() {
    let mut graph: Graph<f64> = Graph::new();
    let x = Scalar::new(&mut graph, 3.0);
    let square = x.mul(&mut graph, &x);
    let left = square.mul_number(&mut graph, 2.0);
    let right = square.mul_number(&mut graph, 5.0);
    let out = left.add(&mut graph, &right);
    out.back_prop(&mut graph);
    assert_eq!(out.get_data(&graph), 63.0);
    assert_eq!(square.get_grad(&graph), 7.0);
    assert_eq!(x.get_grad(&graph), 42.0);
}
