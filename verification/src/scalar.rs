//! Scalars: handles to the nodes of a graph, and the operations on them.
//!
//! Every operation adds nodes at the end of the graph and changes no node
//! that was there. A node that an operation adds starts with the graph's
//! zero as its gradient.
use crate::graph::{computed, fits, lemma_grown_twice, Graph, Node, Op, Value};
use crate::number::{
    fixed_text, float_add, float_exp, float_mul, float_neg, float_powf, float_tanh,
};
use crate::text::{
    compose_display, constant_label, difference_label, display_line, enclose, exp_label, join,
    negation_label, power_label, product_label, shows, sum_label, tanh_label,
};
use num_traits::Float;
use std::fmt::Display;
use vstd::prelude::*;
use vstd::std_specs::ops::{add_ensures, mul_ensures, neg_ensures};
use vstd::string::*;

verus! {

/// A handle to one node of a [`Graph`]. Copying a scalar gives a second
/// handle to the same node. Two scalars are equal when they name the same
/// node, whatever numbers the nodes hold.
#[derive(Clone, Copy, Debug, PartialEq, Eq, Hash, Structural)]
pub struct Scalar {
    /// The index of the node in its graph.
    pub id: usize,
}

/// Node `out` is as an operation leaves it: made by `op` from `producers`,
/// named `label`, with gradient `zero` and a number computed from the
/// numbers of its producers.
pub open spec fn derived<T>(
    nodes: Seq<Node<T>>,
    out: int,
    op: Op<T>,
    producers: Seq<usize>,
    label: Seq<char>,
    zero: T,
) -> bool {
    &&& nodes[out].op == op
    &&& nodes[out].producers == producers
    &&& nodes[out].label == label
    &&& nodes[out].grad == zero
    &&& computed(nodes, out)
}

/// `result` is an outcome of negating `number` the way [`Scalar::neg`]
/// does: it is `number` times some negation of `one`.
pub open spec fn negation_of<T>(one: T, number: T, result: T) -> bool {
    exists|minus_one: T|
        neg_ensures::<T>(one, minus_one) && #[trigger] mul_ensures::<T>(number, minus_one, result)
}

/// `result` is an outcome of `left - right` the way [`Scalar::sub`]
/// computes it: it is `left` plus some negation of `right`.
pub open spec fn difference_of<T>(one: T, left: T, right: T, result: T) -> bool {
    exists|negated: T| #[trigger]
        negation_of(one, right, negated) && add_ensures::<T>(left, negated, result)
}

/// Node `out` is the leaf that stands for the constant `number` in an
/// operation between a scalar and a number.
pub open spec fn constant<T: Display>(nodes: Seq<Node<T>>, out: int, number: T, zero: T) -> bool {
    &&& nodes[out].op == Op::<T>::Leaf
    &&& nodes[out].producers == Seq::<usize>::empty()
    &&& nodes[out].data == number
    &&& nodes[out].grad == zero
    &&& exists|text: Seq<char>| #[trigger]
        shows(text, number) && nodes[out].label == constant_label(text)
}

impl Scalar {
    /// Adds a leaf that holds `data`, with an empty label.
    pub fn new<T: Float>(graph: &mut Graph<T>, data: T) -> (out: Scalar)
        requires
            old(graph).wf(),
        ensures
            old(graph).grown_by(final(graph), 1),
            final(graph).wf(),
            out.id == old(graph)@.len(),
            final(graph)@[out.id as int] == (Node {
                data,
                grad: old(graph).zero,
                label: Seq::<char>::empty(),
                op: Op::<T>::Leaf,
                producers: Seq::<usize>::empty(),
            }),
    {
        let zero = graph.zero;
        graph.push(Value { data, grad: zero, label: String::new(), op: Op::Leaf, producers: Vec::new() })
    }

    /// Adds a leaf that holds `data` and is named `label`.
    pub fn new_with_label<T: Float>(graph: &mut Graph<T>, data: T, label: &str) -> (out: Scalar)
        requires
            old(graph).wf(),
        ensures
            old(graph).grown_by(final(graph), 1),
            final(graph).wf(),
            out.id == old(graph)@.len(),
            final(graph)@[out.id as int] == (Node {
                data,
                grad: old(graph).zero,
                label: label@,
                op: Op::<T>::Leaf,
                producers: Seq::<usize>::empty(),
            }),
    {
        let zero = graph.zero;
        graph.push(
            Value {
                data,
                grad: zero,
                label: String::from_str(label),
                op: Op::Leaf,
                producers: Vec::new(),
            },
        )
    }

    /// The node's number.
    pub fn get_data<T: Float>(&self, graph: &Graph<T>) -> (data: T)
        requires
            graph.holds(*self),
        ensures
            data == graph@[self.id as int].data,
    {
        graph.nodes[self.id].data
    }

    /// The node's gradient.
    pub fn get_grad<T: Float>(&self, graph: &Graph<T>) -> (grad: T)
        requires
            graph.holds(*self),
        ensures
            grad == graph@[self.id as int].grad,
    {
        graph.nodes[self.id].grad
    }

    /// The node's label.
    pub fn get_label<T>(&self, graph: &Graph<T>) -> (label: String)
        requires
            graph.holds(*self),
        ensures
            label@ == graph@[self.id as int].label,
    {
        graph.nodes[self.id].label.clone()
    }

    /// Names the node `label`. Nothing else changes.
    pub fn set_label<T>(&self, graph: &mut Graph<T>, label: &str)
        requires
            old(graph).holds(*self),
        ensures
            final(graph)@ == old(graph)@.update(
                self.id as int,
                Node { label: label@, ..old(graph)@[self.id as int] },
            ),
            final(graph).zero == old(graph).zero,
            final(graph).one == old(graph).one,
            old(graph).wf() ==> final(graph).wf(),
    {
        graph.nodes[self.id].label = String::from_str(label);
        assert(graph@ =~= old(graph)@.update(
            self.id as int,
            Node { label: label@, ..old(graph)@[self.id as int] },
        ));
        assert(old(graph).wf() ==> graph.wf()) by {
            if old(graph).wf() {
                assert forall|i: int| 0 <= i < graph@.len() implies fits(#[trigger] graph@[i], i) by {
                    assert(fits(old(graph)@[i], i));
                }
            }
        }
    }

    /// Sets the node's gradient to `grad`. Nothing else changes.
    pub fn set_grad<T>(&self, graph: &mut Graph<T>, grad: T)
        requires
            old(graph).holds(*self),
        ensures
            final(graph)@ == old(graph)@.update(
                self.id as int,
                Node { grad, ..old(graph)@[self.id as int] },
            ),
            old(graph).regraded(final(graph)),
            old(graph).wf() ==> final(graph).wf(),
    {
        graph.nodes[self.id].grad = grad;
        assert(graph@ =~= old(graph)@.update(
            self.id as int,
            Node { grad, ..old(graph)@[self.id as int] },
        ));
        assert(old(graph).wf() ==> graph.wf()) by {
            if old(graph).wf() {
                assert forall|i: int| 0 <= i < graph@.len() implies fits(#[trigger] graph@[i], i) by {
                    assert(fits(old(graph)@[i], i));
                }
            }
        }
    }

    /// Sets the node's number to `data`. Nothing else changes: a number
    /// that an operation computed from this node before stays as it is.
    pub fn set_data<T>(&self, graph: &mut Graph<T>, data: T)
        requires
            old(graph).holds(*self),
        ensures
            final(graph)@ == old(graph)@.update(
                self.id as int,
                Node { data, ..old(graph)@[self.id as int] },
            ),
            final(graph).zero == old(graph).zero,
            final(graph).one == old(graph).one,
            old(graph).wf() ==> final(graph).wf(),
    {
        graph.nodes[self.id].data = data;
        assert(graph@ =~= old(graph)@.update(
            self.id as int,
            Node { data, ..old(graph)@[self.id as int] },
        ));
        assert(old(graph).wf() ==> graph.wf()) by {
            if old(graph).wf() {
                assert forall|i: int| 0 <= i < graph@.len() implies fits(#[trigger] graph@[i], i) by {
                    assert(fits(old(graph)@[i], i));
                }
            }
        }
    }

    /// Resets the node's gradient to the graph's zero. The gradients of its
    /// producers stay.
    pub fn zero_grad<T: Float>(&self, graph: &mut Graph<T>)
        requires
            old(graph).holds(*self),
        ensures
            final(graph)@ == old(graph)@.update(
                self.id as int,
                Node { grad: old(graph).zero, ..old(graph)@[self.id as int] },
            ),
            old(graph).regraded(final(graph)),
            old(graph).wf() ==> final(graph).wf(),
    {
        let zero = graph.zero;
        self.set_grad(graph, zero);
    }

    /// Adds `delta` to the node's number, in place. Nothing else changes.
    pub fn add_to_data<T: Float>(&self, graph: &mut Graph<T>, delta: T)
        requires
            old(graph).holds(*self),
        ensures
            add_ensures::<T>(
                old(graph)@[self.id as int].data,
                delta,
                final(graph)@[self.id as int].data,
            ),
            final(graph)@ == old(graph)@.update(
                self.id as int,
                Node {
                    data: final(graph)@[self.id as int].data,
                    ..old(graph)@[self.id as int]
                },
            ),
            final(graph).zero == old(graph).zero,
            final(graph).one == old(graph).one,
            old(graph).wf() ==> final(graph).wf(),
    {
        let data = float_add(graph.nodes[self.id].data, delta);
        self.set_data(graph, data);
    }

    /// The line that displays the scalar: its label, then its number and its
    /// gradient, each written with four digits after the decimal point.
    pub fn to_string<T: Float + Display>(&self, graph: &Graph<T>) -> (line: String)
        requires
            graph.holds(*self),
        ensures
            exists|data: Seq<char>, grad: Seq<char>|
                line@ == #[trigger] display_line(graph@[self.id as int].label, data, grad),
    {
        let data = fixed_text(&graph.nodes[self.id].data);
        let grad = fixed_text(&graph.nodes[self.id].grad);
        let line = compose_display(graph.nodes[self.id].label.as_str(), data.as_str(), grad.as_str());
        assert(line@ == display_line(graph@[self.id as int].label, data@, grad@));
        line
    }
}

impl Scalar {
    /// The sum of `self` and `rhs`, as a new node.
    pub fn add<T: Float>(&self, graph: &mut Graph<T>, rhs: &Scalar) -> (out: Scalar)
        requires
            old(graph).wf(),
            old(graph).holds(*self),
            old(graph).holds(*rhs),
        ensures
            old(graph).grown_by(final(graph), 1),
            final(graph).wf(),
            out.id == old(graph)@.len(),
            derived(
                final(graph)@,
                out.id as int,
                Op::<T>::Add,
                seq![self.id, rhs.id],
                sum_label(old(graph)@[self.id as int].label, old(graph)@[rhs.id as int].label),
                old(graph).zero,
            ),
            add_ensures::<T>(
                old(graph)@[self.id as int].data,
                old(graph)@[rhs.id as int].data,
                final(graph)@[out.id as int].data,
            ),
    {
        let data = float_add(graph.nodes[self.id].data, graph.nodes[rhs.id].data);
        let label = join(
            "(",
            graph.nodes[self.id].label.as_str(),
            " + ",
            graph.nodes[rhs.id].label.as_str(),
            ")",
        );
        let mut producers: Vec<usize> = Vec::new();
        producers.push(self.id);
        producers.push(rhs.id);
        assert(producers@ =~= seq![self.id, rhs.id]);
        let zero = graph.zero;
        graph.push(Value { data, grad: zero, label, op: Op::Add, producers })
    }

    /// The product of `self` and `rhs`, as a new node.
    pub fn mul<T: Float>(&self, graph: &mut Graph<T>, rhs: &Scalar) -> (out: Scalar)
        requires
            old(graph).wf(),
            old(graph).holds(*self),
            old(graph).holds(*rhs),
        ensures
            old(graph).grown_by(final(graph), 1),
            final(graph).wf(),
            out.id == old(graph)@.len(),
            derived(
                final(graph)@,
                out.id as int,
                Op::<T>::Mul,
                seq![self.id, rhs.id],
                product_label(old(graph)@[self.id as int].label, old(graph)@[rhs.id as int].label),
                old(graph).zero,
            ),
            mul_ensures::<T>(
                old(graph)@[self.id as int].data,
                old(graph)@[rhs.id as int].data,
                final(graph)@[out.id as int].data,
            ),
    {
        let data = float_mul(graph.nodes[self.id].data, graph.nodes[rhs.id].data);
        let label = join(
            "(",
            graph.nodes[self.id].label.as_str(),
            " * ",
            graph.nodes[rhs.id].label.as_str(),
            ")",
        );
        let mut producers: Vec<usize> = Vec::new();
        producers.push(self.id);
        producers.push(rhs.id);
        assert(producers@ =~= seq![self.id, rhs.id]);
        let zero = graph.zero;
        graph.push(Value { data, grad: zero, label, op: Op::Mul, producers })
    }

    /// `self` raised to `power`, as a new node. The exponent is a plain
    /// number: no gradient flows to it.
    pub fn pow<T: Float + Display>(&self, graph: &mut Graph<T>, power: T) -> (out: Scalar)
        requires
            old(graph).wf(),
            old(graph).holds(*self),
        ensures
            old(graph).grown_by(final(graph), 1),
            final(graph).wf(),
            out.id == old(graph)@.len(),
            exists|text: Seq<char>| #[trigger]
                shows(text, power) && derived(
                    final(graph)@,
                    out.id as int,
                    Op::Pow { exponent: power },
                    seq![self.id],
                    power_label(old(graph)@[self.id as int].label, text),
                    old(graph).zero,
                ),
    {
        let data = float_powf(graph.nodes[self.id].data, power);
        let text = power.to_string();
        let label = join("(", graph.nodes[self.id].label.as_str(), "^", text.as_str(), ")");
        let mut producers: Vec<usize> = Vec::new();
        producers.push(self.id);
        assert(producers@ =~= seq![self.id]);
        let zero = graph.zero;
        let out = graph.push(Value { data, grad: zero, label, op: Op::Pow { exponent: power }, producers });
        assert(shows(text@, power));
        out
    }

    /// e raised to `self`, as a new node.
    pub fn exp<T: Float>(&self, graph: &mut Graph<T>) -> (out: Scalar)
        requires
            old(graph).wf(),
            old(graph).holds(*self),
        ensures
            old(graph).grown_by(final(graph), 1),
            final(graph).wf(),
            out.id == old(graph)@.len(),
            derived(
                final(graph)@,
                out.id as int,
                Op::<T>::Exp,
                seq![self.id],
                exp_label(old(graph)@[self.id as int].label),
                old(graph).zero,
            ),
    {
        let data = float_exp(graph.nodes[self.id].data);
        let label = enclose("exp(", graph.nodes[self.id].label.as_str(), ")");
        let mut producers: Vec<usize> = Vec::new();
        producers.push(self.id);
        assert(producers@ =~= seq![self.id]);
        let zero = graph.zero;
        graph.push(Value { data, grad: zero, label, op: Op::Exp, producers })
    }

    /// The hyperbolic tangent of `self`, as a new node.
    pub fn tanh<T: Float>(&self, graph: &mut Graph<T>) -> (out: Scalar)
        requires
            old(graph).wf(),
            old(graph).holds(*self),
        ensures
            old(graph).grown_by(final(graph), 1),
            final(graph).wf(),
            out.id == old(graph)@.len(),
            derived(
                final(graph)@,
                out.id as int,
                Op::<T>::Tanh,
                seq![self.id],
                tanh_label(old(graph)@[self.id as int].label),
                old(graph).zero,
            ),
    {
        let data = float_tanh(graph.nodes[self.id].data);
        let label = enclose("tanh(", graph.nodes[self.id].label.as_str(), ")");
        let mut producers: Vec<usize> = Vec::new();
        producers.push(self.id);
        assert(producers@ =~= seq![self.id]);
        let zero = graph.zero;
        graph.push(Value { data, grad: zero, label, op: Op::Tanh, producers })
    }

    /// The sum of `self` and the constant `number`: a leaf for the constant,
    /// then the sum.
    pub fn add_number<T: Float + Display>(&self, graph: &mut Graph<T>, number: T) -> (out: Scalar)
        requires
            old(graph).wf(),
            old(graph).holds(*self),
        ensures
            old(graph).grown_by(final(graph), 2),
            final(graph).wf(),
            out.id == old(graph)@.len() + 1,
            constant(final(graph)@, old(graph)@.len() as int, number, old(graph).zero),
            derived(
                final(graph)@,
                out.id as int,
                Op::<T>::Add,
                seq![self.id, old(graph)@.len() as usize],
                sum_label(
                    old(graph)@[self.id as int].label,
                    final(graph)@[old(graph)@.len() as int].label,
                ),
                old(graph).zero,
            ),
            add_ensures::<T>(
                old(graph)@[self.id as int].data,
                number,
                final(graph)@[out.id as int].data,
            ),
    {
        let rhs = Scalar::constant(graph, number);
        let ghost middle = *graph;
        let out = self.add(graph, &rhs);
        proof {
            lemma_grown_twice(*old(graph), middle, *graph, 1, 1);
        }
        out
    }

    /// The product of `self` and the constant `number`: a leaf for the
    /// constant, then the product.
    pub fn mul_number<T: Float + Display>(&self, graph: &mut Graph<T>, number: T) -> (out: Scalar)
        requires
            old(graph).wf(),
            old(graph).holds(*self),
        ensures
            old(graph).grown_by(final(graph), 2),
            final(graph).wf(),
            out.id == old(graph)@.len() + 1,
            constant(final(graph)@, old(graph)@.len() as int, number, old(graph).zero),
            derived(
                final(graph)@,
                out.id as int,
                Op::<T>::Mul,
                seq![self.id, old(graph)@.len() as usize],
                product_label(
                    old(graph)@[self.id as int].label,
                    final(graph)@[old(graph)@.len() as int].label,
                ),
                old(graph).zero,
            ),
            mul_ensures::<T>(
                old(graph)@[self.id as int].data,
                number,
                final(graph)@[out.id as int].data,
            ),
    {
        let rhs = Scalar::constant(graph, number);
        let ghost middle = *graph;
        let out = self.mul(graph, &rhs);
        proof {
            lemma_grown_twice(*old(graph), middle, *graph, 1, 1);
        }
        out
    }

    fn constant<T: Float + Display>(graph: &mut Graph<T>, number: T) -> (out: Scalar)
        requires
            old(graph).wf(),
        ensures
            old(graph).grown_by(final(graph), 1),
            final(graph).wf(),
            out.id == old(graph)@.len(),
            constant(final(graph)@, out.id as int, number, old(graph).zero),
    {
        let text = number.to_string();
        let label = enclose("(Constant ", text.as_str(), ")");
        let zero = graph.zero;
        let out = graph.push(Value { data: number, grad: zero, label, op: Op::Leaf, producers: Vec::new() });
        assert(shows(text@, number));
        out
    }
}

impl Scalar {
    /// The negation of `self`: the product of `self` and the constant minus
    /// one, named `(not label)`.
    pub fn neg<T: Float + Display>(&self, graph: &mut Graph<T>) -> (out: Scalar)
        requires
            old(graph).wf(),
            old(graph).holds(*self),
        ensures
            old(graph).grown_by(final(graph), 2),
            final(graph).wf(),
            out.id == old(graph)@.len() + 1,
            exists|minus_one: T| #[trigger]
                neg_ensures::<T>(old(graph).one, minus_one) && constant(
                    final(graph)@,
                    old(graph)@.len() as int,
                    minus_one,
                    old(graph).zero,
                ),
            derived(
                final(graph)@,
                out.id as int,
                Op::<T>::Mul,
                seq![self.id, old(graph)@.len() as usize],
                negation_label(old(graph)@[self.id as int].label),
                old(graph).zero,
            ),
            negation_of(
                old(graph).one,
                old(graph)@[self.id as int].data,
                final(graph)@[out.id as int].data,
            ),
    {
        let minus_one = float_neg(graph.one);
        let out = self.mul_number(graph, minus_one);
        let ghost middle = *graph;
        let label = enclose("(not ", graph.nodes[self.id].label.as_str(), ")");
        out.set_label(graph, label.as_str());
        proof {
            assert(graph@.subrange(0, old(graph)@.len() as int) =~= middle@.subrange(
                0,
                old(graph)@.len() as int,
            ));
            assert(middle@[self.id as int] == old(graph)@[self.id as int]) by {
                assert(middle@.subrange(0, old(graph)@.len() as int)[self.id as int] == old(
                    graph,
                )@[self.id as int]);
            }
            assert(constant(graph@, old(graph)@.len() as int, minus_one, old(graph).zero));
            assert(mul_ensures::<T>(
                old(graph)@[self.id as int].data,
                minus_one,
                graph@[out.id as int].data,
            ));
        }
        out
    }

    /// The difference of `self` and `rhs`: the sum of `self` and the
    /// negation of `rhs`, named `(left - right)`.
    pub fn sub<T: Float + Display>(&self, graph: &mut Graph<T>, rhs: &Scalar) -> (out: Scalar)
        requires
            old(graph).wf(),
            old(graph).holds(*self),
            old(graph).holds(*rhs),
        ensures
            old(graph).grown_by(final(graph), 3),
            final(graph).wf(),
            out.id == old(graph)@.len() + 2,
            exists|minus_one: T| #[trigger]
                neg_ensures::<T>(old(graph).one, minus_one) && constant(
                    final(graph)@,
                    old(graph)@.len() as int,
                    minus_one,
                    old(graph).zero,
                ),
            derived(
                final(graph)@,
                old(graph)@.len() as int + 1,
                Op::<T>::Mul,
                seq![rhs.id, old(graph)@.len() as usize],
                negation_label(old(graph)@[rhs.id as int].label),
                old(graph).zero,
            ),
            derived(
                final(graph)@,
                out.id as int,
                Op::<T>::Add,
                seq![self.id, (old(graph)@.len() + 1) as usize],
                difference_label(
                    old(graph)@[self.id as int].label,
                    old(graph)@[rhs.id as int].label,
                ),
                old(graph).zero,
            ),
            difference_of(
                old(graph).one,
                old(graph)@[self.id as int].data,
                old(graph)@[rhs.id as int].data,
                final(graph)@[out.id as int].data,
            ),
    {
        let negation = rhs.neg(graph);
        let ghost negated = *graph;
        let out = self.add(graph, &negation);
        let ghost summed = *graph;
        let label = join(
            "(",
            graph.nodes[self.id].label.as_str(),
            " - ",
            graph.nodes[rhs.id].label.as_str(),
            ")",
        );
        out.set_label(graph, label.as_str());
        proof {
            lemma_grown_twice(*old(graph), negated, summed, 2, 1);
            assert(graph@.subrange(0, old(graph)@.len() as int) =~= summed@.subrange(
                0,
                old(graph)@.len() as int,
            ));
            let minus_one = choose|minus_one: T| #[trigger]
                neg_ensures::<T>(old(graph).one, minus_one) && constant(
                    negated@,
                    old(graph)@.len() as int,
                    minus_one,
                    old(graph).zero,
                );
            assert(constant(graph@, old(graph)@.len() as int, minus_one, old(graph).zero));
            assert(negation_of(
                old(graph).one,
                old(graph)@[rhs.id as int].data,
                negated@[negation.id as int].data,
            ));
            assert(add_ensures::<T>(
                old(graph)@[self.id as int].data,
                negated@[negation.id as int].data,
                graph@[out.id as int].data,
            ));
        }
        out
    }

    /// The quotient of `self` and `rhs`: the product of `self` and `rhs`
    /// raised to minus one. A zero divisor is not refused: what the power and
    /// the product then give is what the node holds.
    pub fn div<T: Float + Display>(&self, graph: &mut Graph<T>, rhs: &Scalar) -> (out: Scalar)
        requires
            old(graph).wf(),
            old(graph).holds(*self),
            old(graph).holds(*rhs),
        ensures
            old(graph).grown_by(final(graph), 2),
            final(graph).wf(),
            out.id == old(graph)@.len() + 1,
            exists|minus_one: T, text: Seq<char>|
                neg_ensures::<T>(old(graph).one, minus_one) && shows(text, minus_one)
                    && #[trigger] derived(
                    final(graph)@,
                    old(graph)@.len() as int,
                    Op::Pow { exponent: minus_one },
                    seq![rhs.id],
                    power_label(old(graph)@[rhs.id as int].label, text),
                    old(graph).zero,
                ),
            derived(
                final(graph)@,
                out.id as int,
                Op::<T>::Mul,
                seq![self.id, old(graph)@.len() as usize],
                product_label(
                    old(graph)@[self.id as int].label,
                    final(graph)@[old(graph)@.len() as int].label,
                ),
                old(graph).zero,
            ),
            mul_ensures::<T>(
                old(graph)@[self.id as int].data,
                final(graph)@[old(graph)@.len() as int].data,
                final(graph)@[out.id as int].data,
            ),
    {
        let minus_one = float_neg(graph.one);
        let reciprocal = rhs.pow(graph, minus_one);
        let ghost middle = *graph;
        let out = self.mul(graph, &reciprocal);
        proof {
            lemma_grown_twice(*old(graph), middle, *graph, 1, 1);
            let text = choose|text: Seq<char>| #[trigger]
                shows(text, minus_one) && derived(
                    middle@,
                    old(graph)@.len() as int,
                    Op::Pow { exponent: minus_one },
                    seq![rhs.id],
                    power_label(old(graph)@[rhs.id as int].label, text),
                    old(graph).zero,
                );
            assert(derived(
                graph@,
                old(graph)@.len() as int,
                Op::Pow { exponent: minus_one },
                seq![rhs.id],
                power_label(old(graph)@[rhs.id as int].label, text),
                old(graph).zero,
            ));
        }
        out
    }
}

} // verus!
