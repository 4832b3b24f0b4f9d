//! The backward pass: the gradient of one output with respect to every node
//! that it depends on.
//!
//! The pass seeds the gradient of the output with the graph's one, then
//! walks the output's topological order backwards and applies the local
//! derivative rule of each node it meets. A rule adds to the gradients of
//! the node's producers and changes nothing else. Gradients are never reset
//! by the pass: what a node held before is added to.
//!
//! The numbers that a rule computes are outcomes of operations on `T`. The
//! contracts name each of them and tie it to its operands by vstd's relation
//! for the operator.
use crate::graph::{fits, same_but_grads, well_formed, Graph, Node, Op};
use crate::number::{float_add, float_mul, float_powf, float_sub};
use crate::order::{
    lemma_order_is_topological, lemma_order_is_what_root_reaches, lemma_order_reads_producers,
    lemma_reaches_below, lemma_reaches_producer, reaches, topological_order,
};
use crate::scalar::Scalar;
use num_traits::Float;
use vstd::prelude::*;
use vstd::std_specs::ops::{add_ensures, mul_ensures, sub_ensures};

verus! {

/// `after` is `before` with `contribution` added to the gradient of node
/// `target`.
pub open spec fn gains<T>(
    before: Seq<Node<T>>,
    target: int,
    contribution: T,
    after: Seq<Node<T>>,
) -> bool {
    &&& 0 <= target < before.len()
    &&& add_ensures::<T>(before[target].grad, contribution, after[target].grad)
    &&& after == before.update(target, Node { grad: after[target].grad, ..before[target] })
}

/// The rule of a sum: the node's gradient is added to the gradient of the
/// left operand, which gives `middle`, and then to that of the right.
pub open spec fn add_rule<T>(
    before: Seq<Node<T>>,
    node: int,
    middle: Seq<Node<T>>,
    after: Seq<Node<T>>,
) -> bool {
    let out = before[node];
    &&& gains(before, out.producers[0] as int, out.grad, middle)
    &&& gains(middle, out.producers[1] as int, out.grad, after)
}

/// The rule of a product: the left operand gains `to_left`, the number of
/// the right operand times the node's gradient, which gives `middle`; then
/// the right operand gains `to_right`, the number of the left operand times
/// the node's gradient. The numbers are those that the operands hold now,
/// not those they held when the product was made.
pub open spec fn mul_rule<T>(
    before: Seq<Node<T>>,
    node: int,
    to_left: T,
    to_right: T,
    middle: Seq<Node<T>>,
    after: Seq<Node<T>>,
) -> bool {
    let out = before[node];
    let left = out.producers[0] as int;
    let right = out.producers[1] as int;
    &&& mul_ensures::<T>(before[right].data, out.grad, to_left)
    &&& gains(before, left, to_left, middle)
    &&& mul_ensures::<T>(before[left].data, out.grad, to_right)
    &&& gains(middle, right, to_right, after)
}

/// The rule of a power: the operand gains `contribution`, which is `slope`
/// times the node's gradient, where `slope` is the exponent times `raised`.
/// `raised` stands for the operand's present number raised to `lowered`,
/// the exponent less one; of a power nothing can be said.
pub open spec fn pow_rule<T>(
    before: Seq<Node<T>>,
    node: int,
    one: T,
    lowered: T,
    raised: T,
    slope: T,
    contribution: T,
    after: Seq<Node<T>>,
) -> bool {
    let out = before[node];
    &&& out.op matches Op::Pow { exponent }
    &&& sub_ensures::<T>(exponent, one, lowered)
    &&& mul_ensures::<T>(exponent, raised, slope)
    &&& mul_ensures::<T>(slope, out.grad, contribution)
    &&& gains(before, out.producers[0] as int, contribution, after)
}

/// The rule of an exponential: the operand gains `contribution`, the node's
/// own number times the node's gradient.
pub open spec fn exp_rule<T>(
    before: Seq<Node<T>>,
    node: int,
    contribution: T,
    after: Seq<Node<T>>,
) -> bool {
    let out = before[node];
    &&& mul_ensures::<T>(out.data, out.grad, contribution)
    &&& gains(before, out.producers[0] as int, contribution, after)
}

/// The rule of a hyperbolic tangent: the operand gains `contribution`, which
/// is `slope` times the node's gradient, where `slope` is one less `square`,
/// the square of the node's own number.
pub open spec fn tanh_rule<T>(
    before: Seq<Node<T>>,
    node: int,
    one: T,
    square: T,
    slope: T,
    contribution: T,
    after: Seq<Node<T>>,
) -> bool {
    let out = before[node];
    &&& mul_ensures::<T>(out.data, out.data, square)
    &&& sub_ensures::<T>(one, square, slope)
    &&& mul_ensures::<T>(slope, out.grad, contribution)
    &&& gains(before, out.producers[0] as int, contribution, after)
}

/// `after` is `before` with the local derivative rule of `node` applied
/// once. A leaf has no rule: nothing changes.
pub open spec fn rule_applied<T>(
    before: Seq<Node<T>>,
    node: int,
    one: T,
    after: Seq<Node<T>>,
) -> bool {
    match before[node].op {
        Op::Leaf => after == before,
        Op::Add => exists|middle: Seq<Node<T>>| add_rule(before, node, middle, after),
        Op::Mul => exists|to_left: T, to_right: T, middle: Seq<Node<T>>|
            mul_rule(before, node, to_left, to_right, middle, after),
        Op::Pow { .. } => exists|lowered: T, raised: T, slope: T, contribution: T|
            pow_rule(before, node, one, lowered, raised, slope, contribution, after),
        Op::Exp => exists|contribution: T| exp_rule(before, node, contribution, after),
        Op::Tanh => exists|square: T, slope: T, contribution: T|
            tanh_rule(before, node, one, square, slope, contribution, after),
    }
}

/// `nodes` with the gradient of `root` set to `one`.
pub open spec fn seeded<T>(nodes: Seq<Node<T>>, root: int, one: T) -> Seq<Node<T>> {
    nodes.update(root, Node { grad: one, ..nodes[root] })
}

/// The `step`-th step of a walk backwards through `order` leads from
/// `states[step]` to `states[step + 1]`: it applies the rule of the node
/// that stands `step` places before the end of `order`.
pub open spec fn step_taken<T>(
    order: Seq<usize>,
    one: T,
    states: Seq<Seq<Node<T>>>,
    step: int,
) -> bool {
    rule_applied(states[step], order[order.len() - 1 - step] as int, one, states[step + 1])
}

/// `states` are the graphs that a walk backwards through `order` goes
/// through: each comes from the one before it by the rule of the next node,
/// last node of `order` first.
pub open spec fn propagated<T>(order: Seq<usize>, one: T, states: Seq<Seq<Node<T>>>) -> bool {
    &&& states.len() == order.len() + 1
    &&& forall|step: int| 0 <= step < order.len() ==> #[trigger] step_taken(order, one, states, step)
}

/// `after` is what a backward pass from `root` makes of `before`: the
/// gradient of `root` is set to `one`, and then the rule of every node that
/// `root` depends on is applied once, in the reverse of the topological
/// order of `root`.
pub open spec fn backward_pass<T>(
    before: Seq<Node<T>>,
    root: usize,
    one: T,
    after: Seq<Node<T>>,
) -> bool {
    exists|states: Seq<Seq<Node<T>>>|
        #![trigger propagated(topological_order(before, root), one, states)]
        {
            &&& propagated(topological_order(before, root), one, states)
            &&& states[0] == seeded(before, root as int, one)
            &&& states.last() == after
        }
}

/// A rule changes gradients only, and only those of the node's producers.
pub proof fn lemma_rule_touches_producers<T>(
    before: Seq<Node<T>>,
    node: int,
    one: T,
    after: Seq<Node<T>>,
)
    requires
        well_formed(before),
        0 <= node < before.len(),
        rule_applied(before, node, one, after),
    ensures
        same_but_grads(before, after),
        forall|i: int|
            0 <= i < before.len() && !before[node].producers.contains(i as usize) ==> after[i]
                == before[i],
{
    assert(fits(before[node], node));
    let producers = before[node].producers;
    match before[node].op {
        Op::Leaf => {},
        Op::Add => {
            let middle = choose|middle: Seq<Node<T>>| add_rule(before, node, middle, after);
            assert(producers.contains(producers[0]));
            assert(producers.contains(producers[1]));
        },
        Op::Mul => {
            let (to_left, to_right, middle) = choose|to_left: T, to_right: T, middle: Seq<Node<T>>|
                mul_rule(before, node, to_left, to_right, middle, after);
            assert(producers.contains(producers[0]));
            assert(producers.contains(producers[1]));
        },
        Op::Pow { .. } => {
            let (lowered, raised, slope, contribution) = choose|
                lowered: T,
                raised: T,
                slope: T,
                contribution: T,
            | pow_rule(before, node, one, lowered, raised, slope, contribution, after);
            assert(producers.contains(producers[0]));
        },
        Op::Exp => {
            let contribution = choose|contribution: T| exp_rule(before, node, contribution, after);
            assert(producers.contains(producers[0]));
        },
        Op::Tanh => {
            let (square, slope, contribution) = choose|square: T, slope: T, contribution: T|
                tanh_rule(before, node, one, square, slope, contribution, after);
            assert(producers.contains(producers[0]));
        },
    }
}

/// For the nodes that `root` depends on in `shape`, what `nodes` holds; for
/// all others, what `other` holds.
pub open spec fn grafted<T>(
    shape: Seq<Node<T>>,
    root: int,
    nodes: Seq<Node<T>>,
    other: Seq<Node<T>>,
) -> Seq<Node<T>> {
    Seq::new(nodes.len(), |i: int| if reaches(shape, root, i) { nodes[i] } else { other[i] })
}

proof fn lemma_shape_keeps_order<T>(shape: Seq<Node<T>>, nodes: Seq<Node<T>>)
    requires
        well_formed(shape),
        same_but_grads(shape, nodes),
    ensures
        well_formed(nodes),
{
    assert forall|i: int| 0 <= i < nodes.len() implies fits(#[trigger] nodes[i], i) by {
        assert(fits(shape[i], i));
    }
}

proof fn lemma_gains_grafts<T>(
    shape: Seq<Node<T>>,
    root: int,
    other: Seq<Node<T>>,
    before: Seq<Node<T>>,
    target: int,
    contribution: T,
    after: Seq<Node<T>>,
)
    requires
        gains(before, target, contribution, after),
        reaches(shape, root, target),
    ensures
        gains(
            grafted(shape, root, before, other),
            target,
            contribution,
            grafted(shape, root, after, other),
        ),
{
    let left = grafted(shape, root, before, other);
    let right = grafted(shape, root, after, other);
    assert(right =~= left.update(target, Node { grad: right[target].grad, ..left[target] }));
}

proof fn lemma_rule_grafts<T>(
    shape: Seq<Node<T>>,
    root: int,
    other: Seq<Node<T>>,
    before: Seq<Node<T>>,
    node: int,
    one: T,
    after: Seq<Node<T>>,
)
    requires
        well_formed(shape),
        same_but_grads(shape, before),
        0 <= node < shape.len(),
        reaches(shape, root, node),
        rule_applied(before, node, one, after),
    ensures
        rule_applied(
            grafted(shape, root, before, other),
            node,
            one,
            grafted(shape, root, after, other),
        ),
{
    let left = grafted(shape, root, before, other);
    let right = grafted(shape, root, after, other);
    assert(fits(shape[node], node));
    assert(before[node] == (Node { grad: before[node].grad, ..shape[node] }));
    assert(left[node] == before[node]);
    let producers = before[node].producers;
    match before[node].op {
        Op::Leaf => {
            assert(right =~= left);
        },
        Op::Add => {
            let middle = choose|middle: Seq<Node<T>>| add_rule(before, node, middle, after);
            assert(producers[0] < node && producers[1] < node);
            lemma_reaches_producer(shape, root, node, 0);
            lemma_reaches_producer(shape, root, node, 1);
            lemma_gains_grafts(
                shape,
                root,
                other,
                before,
                producers[0] as int,
                before[node].grad,
                middle,
            );
            lemma_gains_grafts(
                shape,
                root,
                other,
                middle,
                producers[1] as int,
                before[node].grad,
                after,
            );
            assert(add_rule(left, node, grafted(shape, root, middle, other), right));
        },
        Op::Mul => {
            let (to_left, to_right, middle) = choose|to_left: T, to_right: T, middle: Seq<Node<T>>|
                mul_rule(before, node, to_left, to_right, middle, after);
            assert(producers[0] < node && producers[1] < node);
            lemma_reaches_producer(shape, root, node, 0);
            lemma_reaches_producer(shape, root, node, 1);
            lemma_gains_grafts(shape, root, other, before, producers[0] as int, to_left, middle);
            lemma_gains_grafts(shape, root, other, middle, producers[1] as int, to_right, after);
            assert(mul_rule(
                left,
                node,
                to_left,
                to_right,
                grafted(shape, root, middle, other),
                right,
            ));
        },
        Op::Pow { .. } => {
            let (lowered, raised, slope, contribution) = choose|
                lowered: T,
                raised: T,
                slope: T,
                contribution: T,
            | pow_rule(before, node, one, lowered, raised, slope, contribution, after);
            assert(producers[0] < node);
            lemma_reaches_producer(shape, root, node, 0);
            lemma_gains_grafts(shape, root, other, before, producers[0] as int, contribution, after);
            assert(pow_rule(left, node, one, lowered, raised, slope, contribution, right));
        },
        Op::Exp => {
            let contribution = choose|contribution: T| exp_rule(before, node, contribution, after);
            assert(producers[0] < node);
            lemma_reaches_producer(shape, root, node, 0);
            lemma_gains_grafts(shape, root, other, before, producers[0] as int, contribution, after);
            assert(exp_rule(left, node, contribution, right));
        },
        Op::Tanh => {
            let (square, slope, contribution) = choose|square: T, slope: T, contribution: T|
                tanh_rule(before, node, one, square, slope, contribution, after);
            assert(producers[0] < node);
            lemma_reaches_producer(shape, root, node, 0);
            lemma_gains_grafts(shape, root, other, before, producers[0] as int, contribution, after);
            assert(tanh_rule(left, node, one, square, slope, contribution, right));
        },
    }
}

proof fn lemma_states_keep_shape<T>(
    shape: Seq<Node<T>>,
    order: Seq<usize>,
    one: T,
    states: Seq<Seq<Node<T>>>,
    step: int,
)
    requires
        well_formed(shape),
        propagated(order, one, states),
        same_but_grads(shape, states[0]),
        forall|i: int| 0 <= i < order.len() ==> #[trigger] order[i] < shape.len(),
        0 <= step <= order.len(),
    ensures
        same_but_grads(shape, states[step]),
    decreases step,
{
    if step > 0 {
        lemma_states_keep_shape(shape, order, one, states, step - 1);
        let earlier = states[step - 1];
        let node = order[order.len() - 1 - (step - 1)] as int;
        lemma_shape_keeps_order(shape, earlier);
        assert(step_taken(order, one, states, step - 1));
        lemma_rule_touches_producers(earlier, node, one, states[step]);
    }
}

/// A backward pass reads nothing of the nodes that its root does not depend
/// on, and writes nothing to them.
///
/// Let two graphs hold the same nodes but for the gradients of nodes that
/// `root` does not depend on. Then whatever a backward pass from `root` can
/// make of the first graph, a backward pass from `root` can make of the
/// second: the same nodes where `root` depends on them, and the nodes of the
/// second graph, untouched, elsewhere.
///
/// In particular the gradients that a pass leaves are the same on a graph
/// that was just built and on a graph that went through earlier passes,
/// once the gradients of the nodes that `root` depends on have been reset.
pub proof fn lemma_backward_reads_what_root_reaches<T>(
    first: Seq<Node<T>>,
    second: Seq<Node<T>>,
    root: usize,
    one: T,
    after: Seq<Node<T>>,
)
    requires
        well_formed(first),
        root < first.len(),
        same_but_grads(first, second),
        forall|i: int|
            0 <= i < first.len() && reaches(first, root as int, i) ==> #[trigger] second[i]
                == first[i],
        backward_pass(first, root, one, after),
    ensures
        backward_pass(second, root, one, grafted(first, root as int, after, second)),
{
    let order = topological_order(first, root);
    lemma_order_reads_producers(first, second, root);
    lemma_order_is_topological(first, root);
    let states = choose|states: Seq<Seq<Node<T>>>|
        #![trigger propagated(topological_order(first, root), one, states)]
        {
            &&& propagated(topological_order(first, root), one, states)
            &&& states[0] == seeded(first, root as int, one)
            &&& states.last() == after
        };
    let grafts = Seq::new(states.len(), |k: int| grafted(first, root as int, states[k], second));
    assert(reaches(first, root as int, root as int));
    assert(grafts[0] =~= seeded(second, root as int, one));
    assert forall|step: int| 0 <= step < order.len() implies #[trigger] step_taken(
        order,
        one,
        grafts,
        step,
    ) by {
        lemma_states_keep_shape(first, order, one, states, step);
        let node = order[order.len() - 1 - step];
        assert(order.contains(node));
        lemma_order_is_what_root_reaches(first, root, node);
        assert(step_taken(order, one, states, step));
        lemma_rule_grafts(
            first,
            root as int,
            second,
            states[step],
            node as int,
            one,
            states[step + 1],
        );
    }
    assert(propagated(topological_order(second, root), one, grafts));
    assert(grafts.last() == grafted(first, root as int, after, second));
}

impl Scalar {
    fn accumulate<T: Float>(&self, graph: &mut Graph<T>, contribution: T)
        requires
            old(graph).holds(*self),
        ensures
            gains(old(graph)@, self.id as int, contribution, final(graph)@),
            old(graph).regraded(final(graph)),
            old(graph).wf() ==> final(graph).wf(),
    {
        let sum = float_add(graph.nodes[self.id].grad, contribution);
        self.set_grad(graph, sum);
    }

    /// Applies the local derivative rule of the node once: adds to the
    /// gradient of each of its producers what the node's own gradient, as it
    /// stands, contributes to it.
    pub fn propagate<T: Float>(&self, graph: &mut Graph<T>)
        requires
            old(graph).wf(),
            old(graph).holds(*self),
        ensures
            rule_applied(old(graph)@, self.id as int, old(graph).one, final(graph)@),
            old(graph).regraded(final(graph)),
            final(graph).wf(),
    {
        let op = graph.nodes[self.id].op;
        let data = graph.nodes[self.id].data;
        let grad = graph.nodes[self.id].grad;
        assert(fits(graph@[self.id as int], self.id as int));
        match op {
            Op::Leaf => {},
            Op::Add => {
                let left = Scalar { id: graph.nodes[self.id].producers[0] };
                let right = Scalar { id: graph.nodes[self.id].producers[1] };
                left.accumulate(graph, grad);
                let ghost middle = graph@;
                right.accumulate(graph, grad);
                assert(add_rule(old(graph)@, self.id as int, middle, graph@));
            },
            Op::Mul => {
                let left = Scalar { id: graph.nodes[self.id].producers[0] };
                let right = Scalar { id: graph.nodes[self.id].producers[1] };
                let left_data = graph.nodes[left.id].data;
                let right_data = graph.nodes[right.id].data;
                let to_left = float_mul(right_data, grad);
                left.accumulate(graph, to_left);
                let ghost middle = graph@;
                let to_right = float_mul(left_data, grad);
                right.accumulate(graph, to_right);
                assert(mul_rule(old(graph)@, self.id as int, to_left, to_right, middle, graph@));
            },
            Op::Pow { exponent } => {
                let input = Scalar { id: graph.nodes[self.id].producers[0] };
                let lowered = float_sub(exponent, graph.one);
                let raised = float_powf(graph.nodes[input.id].data, lowered);
                let slope = float_mul(exponent, raised);
                let contribution = float_mul(slope, grad);
                input.accumulate(graph, contribution);
                assert(pow_rule(
                    old(graph)@,
                    self.id as int,
                    old(graph).one,
                    lowered,
                    raised,
                    slope,
                    contribution,
                    graph@,
                ));
            },
            Op::Exp => {
                let input = Scalar { id: graph.nodes[self.id].producers[0] };
                let contribution = float_mul(data, grad);
                input.accumulate(graph, contribution);
                assert(exp_rule(old(graph)@, self.id as int, contribution, graph@));
            },
            Op::Tanh => {
                let input = Scalar { id: graph.nodes[self.id].producers[0] };
                let square = float_mul(data, data);
                let slope = float_sub(graph.one, square);
                let contribution = float_mul(slope, grad);
                input.accumulate(graph, contribution);
                assert(tanh_rule(
                    old(graph)@,
                    self.id as int,
                    old(graph).one,
                    square,
                    slope,
                    contribution,
                    graph@,
                ));
            },
        }
    }
}

impl Scalar {
    /// The backward pass from this scalar: computes the gradient of this
    /// scalar with respect to every node that it depends on, and adds it to
    /// what the node's gradient held.
    ///
    /// The scalar's own gradient is set to the graph's one. Then the rule of
    /// every node that the scalar depends on is applied once, a node's rule
    /// only after the rules of all the nodes that it is a producer of. No
    /// gradient is reset first, so a second pass adds to the result of the
    /// first. A node that the scalar does not depend on keeps its gradient.
    pub fn back_prop<T: Float>(&self, graph: &mut Graph<T>)
        requires
            old(graph).wf(),
            old(graph).holds(*self),
        ensures
            backward_pass(old(graph)@, self.id, old(graph).one, final(graph)@),
            old(graph).regraded(final(graph)),
            final(graph).wf(),
            final(graph)@[self.id as int].grad == old(graph).one,
            forall|i: int|
                0 <= i < old(graph)@.len() && !reaches(old(graph)@, self.id as int, i)
                    ==> final(graph)@[i] == old(graph)@[i],
    {
        let order = graph.topological_order(*self);
        let one = graph.one;
        self.set_grad(graph, one);
        let ghost mut states: Seq<Seq<Node<T>>> = seq![graph@];
        let mut remaining = order.len();
        proof {
            assert(reaches(old(graph)@, self.id as int, self.id as int));
        }
        while remaining > 0
            invariant
                remaining <= order.len(),
                order@ == topological_order(old(graph)@, self.id),
                old(graph).wf(),
                old(graph).holds(*self),
                graph.wf(),
                old(graph).regraded(graph),
                states.len() == order.len() - remaining + 1,
                states[0] == seeded(old(graph)@, self.id as int, old(graph).one),
                states.last() == graph@,
                forall|step: int|
                    0 <= step < order.len() - remaining ==> #[trigger] step_taken(
                        order@,
                        old(graph).one,
                        states,
                        step,
                    ),
                graph@[self.id as int].grad == old(graph).one,
                forall|i: int|
                    0 <= i < old(graph)@.len() && !reaches(old(graph)@, self.id as int, i)
                        ==> graph@[i] == old(graph)@[i],
            decreases remaining,
        {
            remaining -= 1;
            let node = Scalar { id: order[remaining] };
            let ghost before = *graph;
            proof {
                assert(order@.contains(node.id));
                lemma_order_is_what_root_reaches(old(graph)@, self.id, node.id);
                lemma_reaches_below(old(graph)@, self.id as int, node.id as int);
            }
            node.propagate(graph);
            proof {
                lemma_rule_touches_producers(before@, node.id as int, old(graph).one, graph@);
                assert(fits(old(graph)@[node.id as int], node.id as int));
                assert(before@[node.id as int].producers == old(graph)@[node.id as int].producers);
                let producers = old(graph)@[node.id as int].producers;
                assert(!producers.contains(self.id)) by {
                    if producers.contains(self.id) {
                        let k = choose|k: int| 0 <= k < producers.len() && producers[k] == self.id;
                        assert(producers[k] < node.id);
                    }
                }
                assert forall|i: int|
                    0 <= i < old(graph)@.len() && !reaches(
                        old(graph)@,
                        self.id as int,
                        i,
                    ) implies graph@[i] == old(graph)@[i] by {
                    if producers.contains(i as usize) {
                        let k = choose|k: int|
                            0 <= k < producers.len() && producers[k] == i as usize;
                        assert(producers[k] < node.id);
                        lemma_reaches_producer(old(graph)@, self.id as int, node.id as int, k);
                    }
                }
                let ghost earlier = states;
                states = states.push(graph@);
                assert forall|step: int|
                    0 <= step < order.len() - remaining implies #[trigger] step_taken(
                    order@,
                    old(graph).one,
                    states,
                    step,
                ) by {
                    if step < order.len() - remaining - 1 {
                        assert(step_taken(order@, old(graph).one, earlier, step));
                        assert(states[step] == earlier[step]);
                        assert(states[step + 1] == earlier[step + 1]);
                    } else {
                        assert(states[step] == before@);
                        assert(states[step + 1] == graph@);
                    }
                }
            }
        }
        proof {
            assert(propagated(topological_order(old(graph)@, self.id), old(graph).one, states));
        }
    }

    /// The backward pass from this scalar, under the name that training
    /// loops call it by: [`Scalar::back_prop`].
    pub fn backward<T: Float>(&self, graph: &mut Graph<T>)
        requires
            old(graph).wf(),
            old(graph).holds(*self),
        ensures
            backward_pass(old(graph)@, self.id, old(graph).one, final(graph)@),
            old(graph).regraded(final(graph)),
            final(graph).wf(),
            final(graph)@[self.id as int].grad == old(graph).one,
            forall|i: int|
                0 <= i < old(graph)@.len() && !reaches(old(graph)@, self.id as int, i)
                    ==> final(graph)@[i] == old(graph)@[i],
    {
        self.back_prop(graph)
    }
}

} // verus!
