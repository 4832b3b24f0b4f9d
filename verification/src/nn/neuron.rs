//! A neuron: the hyperbolic tangent of a weighted sum of its inputs.
use crate::graph::{fits, lemma_grown_twice, well_formed, Graph, Node, Op};
use crate::nn::{all_below, input_leaves, leaf, lemma_derived_stays, row, width, zero_all, zeroed};
use crate::number::uniform_weight;
use crate::scalar::{derived, Scalar};
use crate::text::{
    decimal, enclose, input_count_message, join, product_label, sum_label, tanh_label,
    weight_label,
};
use num_traits::Float;
use rand::distributions::uniform::SampleUniform;
use vstd::prelude::*;
use vstd::string::*;

verus! {

/// A neuron: one weight for each input, and a bias.
pub struct Neuron {
    pub weights: Vec<Scalar>,
    pub bias: Scalar,
}

/// The node that holds the sum of the bias and the first `i` terms of a
/// neuron's forward computation whose nodes start at `base`.
pub open spec fn sum_before(neuron: Neuron, base: int, i: int) -> int {
    if i == 0 {
        neuron.bias.id as int
    } else {
        base + 2 * i - 1
    }
}

/// The two nodes of the `i`-th term of a neuron's forward computation whose
/// nodes start at `base`: the product of the `i`-th input and the `i`-th
/// weight, and the sum of what was summed before and that product.
pub open spec fn term_made<T>(
    nodes: Seq<Node<T>>,
    neuron: Neuron,
    inputs: Seq<Scalar>,
    base: int,
    i: int,
    zero: T,
) -> bool {
    &&& derived(
        nodes,
        base + 2 * i,
        Op::Mul,
        seq![inputs[i].id, neuron.weights@[i].id],
        product_label(nodes[inputs[i].id as int].label, nodes[neuron.weights@[i].id as int].label),
        zero,
    )
    &&& derived(
        nodes,
        base + 2 * i + 1,
        Op::Add,
        seq![sum_before(neuron, base, i) as usize, (base + 2 * i) as usize],
        sum_label(nodes[sum_before(neuron, base, i)].label, nodes[base + 2 * i].label),
        zero,
    )
}

/// The nodes of a neuron's forward computation on `inputs`, from `base` on:
/// for each input a product and a sum, then the hyperbolic tangent of the
/// last sum, which is `out`.
#[verifier::opaque]
pub open spec fn activated<T>(
    nodes: Seq<Node<T>>,
    neuron: Neuron,
    inputs: Seq<Scalar>,
    base: int,
    out: Scalar,
    zero: T,
) -> bool {
    let count = inputs.len() as int;
    &&& out.id == base + 2 * count
    &&& forall|i: int| 0 <= i < count ==> #[trigger] term_made(nodes, neuron, inputs, base, i, zero)
    &&& derived(
        nodes,
        base + 2 * count,
        Op::Tanh,
        seq![sum_before(neuron, base, count) as usize],
        tanh_label(nodes[sum_before(neuron, base, count)].label),
        zero,
    )
}

/// The parameters of a neuron are leaves from `base` on: its weights, named
/// `w0`, `w1` and so on, and then its bias, named `b`. Each has gradient
/// `zero`.
#[verifier::opaque]
pub open spec fn neuron_at<T>(
    nodes: Seq<Node<T>>,
    neuron: Neuron,
    base: int,
    count: int,
    zero: T,
) -> bool {
    &&& neuron.weights@.len() == count
    &&& forall|i: int|
        0 <= i < count ==> (#[trigger] neuron.weights@[i]).id == base + i && nodes[base + i]
            == leaf(nodes[base + i].data, weight_label(i as nat), zero)
    &&& neuron.bias.id == base + count
    &&& nodes[base + count] == leaf(nodes[base + count].data, "b"@, zero)
}

impl Neuron {
    /// Every parameter of the neuron is a node of `graph`.
    pub open spec fn within<T>(&self, graph: &Graph<T>) -> bool {
        &&& all_below(self.weights@, graph@.len())
        &&& self.bias.id < graph@.len()
    }

    /// The parameters, as [`Neuron::parameters`] returns them.
    pub open spec fn parameter_list(&self) -> Seq<Scalar> {
        self.weights@.push(self.bias)
    }

    /// Whether every parameter of the neuron is a node of `graph`.
    pub fn is_within<T: Float>(&self, graph: &Graph<T>) -> (ok: bool)
        ensures
            ok == self.within(graph),
    {
        graph.contains_all(&self.weights) && graph.contains(self.bias)
    }

    /// A neuron with the given weights and bias, each a new leaf.
    pub fn from_values<T: Float>(graph: &mut Graph<T>, weights: &Vec<T>, bias: T) -> (neuron:
        Neuron)
        requires
            old(graph).wf(),
        ensures
            old(graph).grown_by(final(graph), weights@.len() + 1),
            final(graph).wf(),
            neuron_at(
                final(graph)@,
                neuron,
                old(graph)@.len() as int,
                weights@.len() as int,
                old(graph).zero,
            ),
            forall|i: int|
                0 <= i < weights@.len() ==> (#[trigger] final(graph)@[old(graph)@.len() as int
                    + i]).data == weights@[i],
            final(graph)@[old(graph)@.len() as int + weights@.len()].data == bias,
            neuron.weights@.len() == weights@.len(),
            neuron.within(final(graph)),
    {
        let ghost base = graph@.len() as int;
        let mut handles: Vec<Scalar> = Vec::new();
        let mut i: usize = 0;
        assert(graph@.subrange(0, graph@.len() as int) =~= graph@);
        while i < weights.len()
            invariant
                i <= weights@.len(),
                base == old(graph)@.len(),
                old(graph).grown_by(graph, i as nat),
                graph.wf(),
                handles@.len() == i,
                forall|j: int|
                    0 <= j < i ==> (#[trigger] handles@[j]).id == base + j && graph@[base + j]
                        == leaf(weights@[j], weight_label(j as nat), old(graph).zero),
            decreases weights@.len() - i,
        {
            let name = enclose("w", decimal(i).as_str(), "");
            proof {
                reveal_strlit("");
            }
            assert(name@ =~= weight_label(i as nat));
            let ghost earlier = *graph;
            let handle = Scalar::new_with_label(graph, weights[i], name.as_str());
            handles.push(handle);
            proof {
                lemma_grown_twice(*old(graph), earlier, *graph, i as nat, 1);
            }
            i += 1;
        }
        let ghost earlier = *graph;
        let ghost bias_value = bias;
        let bias = Scalar::new_with_label(graph, bias, "b");
        proof {
            lemma_grown_twice(*old(graph), earlier, *graph, weights@.len(), 1);
        }
        let neuron = Neuron { weights: handles, bias };
        assert(all_below(neuron.weights@, graph@.len()));
        assert forall|i: int| 0 <= i < weights@.len() implies (#[trigger] graph@[base + i]).data
            == weights@[i] by {
            assert(handles@[i].id == base + i);
            assert(graph@[base + i] == earlier@[base + i]);
        }
        assert forall|i: int| 0 <= i < weights@.len() implies (#[trigger] neuron.weights@[i]).id
            == base + i && graph@[base + i] == leaf(
            graph@[base + i].data,
            weight_label(i as nat),
            old(graph).zero,
        ) by {
            assert(handles@[i].id == base + i);
            assert(graph@[base + i] == earlier@[base + i]);
        }
        assert(graph@[base + weights@.len()] == leaf(bias_value, "b"@, old(graph).zero));
        proof {
            reveal(neuron_at);
        }
        neuron
    }

    /// A neuron for `num_inputs` inputs, none if the number is negative.
    /// Each weight, and then the bias, is drawn from the uniform
    /// distribution over the range from minus one to one.
    pub fn new<T: Float + SampleUniform>(graph: &mut Graph<T>, num_inputs: i32) -> (neuron: Neuron)
        requires
            old(graph).wf(),
        ensures
            old(graph).grown_by(final(graph), width(num_inputs) + 1),
            final(graph).wf(),
            neuron_at(
                final(graph)@,
                neuron,
                old(graph)@.len() as int,
                width(num_inputs) as int,
                old(graph).zero,
            ),
            neuron.weights@.len() == width(num_inputs),
            neuron.within(final(graph)),
    {
        let mut weights: Vec<T> = Vec::new();
        let mut i: i32 = 0;
        while i < num_inputs
            invariant
                0 <= i,
                i <= num_inputs || i == 0,
                weights@.len() == i,
            decreases num_inputs - i,
        {
            weights.push(uniform_weight());
            i += 1;
        }
        let bias = uniform_weight();
        Neuron::from_values(graph, &weights, bias)
    }

    /// The neuron's output for `inputs`: the hyperbolic tangent of the bias
    /// plus the sum of each input times its weight. The result is a node of
    /// the graph, on top of the nodes of the products and sums.
    ///
    /// Fails when the number of inputs is not the number of weights, and
    /// then leaves the graph as it was.
    pub fn forward<T: Float>(&self, graph: &mut Graph<T>, inputs: &Vec<Scalar>) -> (result: Result<
        Scalar,
        String,
    >)
        requires
            old(graph).wf(),
            self.within(old(graph)),
            all_below(inputs@, old(graph)@.len()),
        ensures
            final(graph).wf(),
            match result {
                Ok(out) => {
                    &&& inputs@.len() == self.weights@.len()
                    &&& old(graph).grown_by(final(graph), 2 * inputs@.len() + 1)
                    &&& out.id == old(graph)@.len() + 2 * inputs@.len()
                    &&& activated(
                        final(graph)@,
                        *self,
                        inputs@,
                        old(graph)@.len() as int,
                        out,
                        old(graph).zero,
                    )
                },
                Err(message) => {
                    &&& inputs@.len() != self.weights@.len()
                    &&& *final(graph) == *old(graph)
                    &&& message@ == input_count_message(self.weights@.len(), inputs@.len())
                },
            },
    {
        let count = inputs.len();
        if count != self.weights.len() {
            let expected = decimal(self.weights.len());
            let actual = decimal(count);
            let message = join("Expected ", expected.as_str(), " inputs, not ", actual.as_str(), "");
            proof {
                reveal_strlit("");
            }
            assert(message@ =~= input_count_message(self.weights@.len(), inputs@.len()));
            return Err(message);
        }
        let ghost base = graph@.len() as int;
        let mut sum = self.bias;
        let mut i: usize = 0;
        assert(graph@.subrange(0, graph@.len() as int) =~= graph@);
        while i < count
            invariant
                i <= count,
                count == inputs@.len(),
                count == self.weights@.len(),
                base == old(graph)@.len(),
                old(graph).wf(),
                self.within(old(graph)),
                all_below(inputs@, old(graph)@.len()),
                old(graph).grown_by(graph, 2 * (i as nat)),
                graph.wf(),
                sum.id == sum_before(*self, base, i as int),
                forall|j: int|
                    0 <= j < i ==> #[trigger] term_made(
                        graph@,
                        *self,
                        inputs@,
                        base,
                        j,
                        old(graph).zero,
                    ),
            decreases count - i,
        {
            let ghost first = *graph;
            let input = inputs[i];
            let weight = self.weights[i];
            assert(inputs@[i as int].id < old(graph)@.len());
            assert(self.weights@[i as int].id < old(graph)@.len());
            let product = input.mul(graph, &weight);
            let ghost second = *graph;
            sum = sum.add(graph, &product);
            proof {
                lemma_grown_twice(first, second, *graph, 1, 1);
                lemma_grown_twice(*old(graph), first, *graph, 2 * (i as nat), 2);
                lemma_derived_stays(
                    second@,
                    graph@,
                    base + 2 * i,
                    Op::Mul,
                    seq![input.id, weight.id],
                    product_label(first@[input.id as int].label, first@[weight.id as int].label),
                    old(graph).zero,
                );
                assert(term_made(graph@, *self, inputs@, base, i as int, old(graph).zero));
                assert forall|j: int| 0 <= j < i implies #[trigger] term_made(
                    graph@,
                    *self,
                    inputs@,
                    base,
                    j,
                    old(graph).zero,
                ) by {
                    lemma_term_stays(first@, graph@, *self, inputs@, base, j, old(graph).zero);
                }
            }
            i += 1;
        }
        let ghost summed = *graph;
        let out = sum.tanh(graph);
        proof {
            lemma_grown_twice(*old(graph), summed, *graph, 2 * (count as nat), 1);
            assert forall|j: int| 0 <= j < count implies #[trigger] term_made(
                graph@,
                *self,
                inputs@,
                base,
                j,
                old(graph).zero,
            ) by {
                lemma_term_stays(summed@, graph@, *self, inputs@, base, j, old(graph).zero);
            }
            assert(activated(graph@, *self, inputs@, base, out, old(graph).zero)) by {
                reveal(activated);
            }
        }
        Ok(out)
    }

    /// The neuron's output for inputs given as numbers: a leaf with an empty
    /// label for each number, then as [`Neuron::forward`] on those leaves.
    ///
    /// Fails when the number of inputs is not the number of weights, and
    /// then leaves the graph as it was.
    pub fn forward_with_numbers<T: Float>(&self, graph: &mut Graph<T>, inputs: &Vec<T>) -> (result:
        Result<Scalar, String>)
        requires
            old(graph).wf(),
            self.within(old(graph)),
        ensures
            final(graph).wf(),
            match result {
                Ok(out) => {
                    &&& inputs@.len() == self.weights@.len()
                    &&& old(graph).grown_by(final(graph), 3 * inputs@.len() + 1)
                    &&& out.id == old(graph)@.len() + 3 * inputs@.len()
                    &&& forall|i: int|
                        0 <= i < inputs@.len() ==> #[trigger] final(graph)@[old(graph)@.len() as int
                            + i] == leaf(inputs@[i], Seq::<char>::empty(), old(graph).zero)
                    &&& activated(
                        final(graph)@,
                        *self,
                        row(old(graph)@.len() as int, inputs@.len()),
                        old(graph)@.len() as int + inputs@.len(),
                        out,
                        old(graph).zero,
                    )
                },
                Err(message) => {
                    &&& inputs@.len() != self.weights@.len()
                    &&& *final(graph) == *old(graph)
                    &&& message@ == input_count_message(self.weights@.len(), inputs@.len())
                },
            },
    {
        if inputs.len() != self.weights.len() {
            let expected = decimal(self.weights.len());
            let actual = decimal(inputs.len());
            let message = join("Expected ", expected.as_str(), " inputs, not ", actual.as_str(), "");
            proof {
                reveal_strlit("");
            }
            assert(message@ =~= input_count_message(self.weights@.len(), inputs@.len()));
            return Err(message);
        }
        let scalars = input_leaves(graph, inputs);
        let ghost middle = *graph;
        assert(all_below(scalars@, graph@.len()));
        assert(all_below(self.weights@, graph@.len()));
        let result = self.forward(graph, &scalars);
        proof {
            lemma_grown_twice(
                *old(graph),
                middle,
                *graph,
                inputs@.len(),
                2 * inputs@.len() + 1,
            );
            assert forall|i: int| 0 <= i < inputs@.len() implies #[trigger] graph@[old(
                graph,
            )@.len() as int + i] == leaf(inputs@[i], Seq::<char>::empty(), old(graph).zero) by {
                assert(graph@[old(graph)@.len() as int + i] == middle@[old(graph)@.len() as int + i]);
            }
        }
        result
    }

    /// Resets the gradient of every parameter of the neuron.
    pub fn zero_grad<T: Float>(&self, graph: &mut Graph<T>)
        requires
            self.within(old(graph)),
        ensures
            zeroed(old(graph)@, self.parameter_list(), old(graph).zero, final(graph)@),
            old(graph).regraded(final(graph)),
            old(graph).wf() ==> final(graph).wf(),
    {
        let parameters = self.parameters();
        assert(all_below(parameters@, graph@.len()));
        zero_all(graph, &parameters);
    }

    /// The weights, in order, and then the bias.
    pub fn parameters(&self) -> (parameters: Vec<Scalar>)
        ensures
            parameters@ == self.parameter_list(),
    {
        let mut parameters: Vec<Scalar> = Vec::new();
        let mut i: usize = 0;
        while i < self.weights.len()
            invariant
                i <= self.weights@.len(),
                parameters@ == self.weights@.subrange(0, i as int),
            decreases self.weights@.len() - i,
        {
            parameters.push(self.weights[i]);
            assert(parameters@ =~= self.weights@.subrange(0, i + 1));
            i += 1;
        }
        assert(self.weights@.subrange(0, i as int) =~= self.weights@);
        parameters.push(self.bias);
        parameters
    }
}

/// The nodes of a term stay as they are when more nodes are added.
proof fn lemma_term_stays<T>(
    before: Seq<Node<T>>,
    after: Seq<Node<T>>,
    neuron: Neuron,
    inputs: Seq<Scalar>,
    base: int,
    i: int,
    zero: T,
)
    requires
        well_formed(before),
        0 <= base,
        0 <= i < inputs.len(),
        i < neuron.weights@.len(),
        base + 2 * i + 1 < before.len() <= after.len(),
        neuron.bias.id < before.len(),
        after.subrange(0, before.len() as int) == before,
        term_made(before, neuron, inputs, base, i, zero),
    ensures
        term_made(after, neuron, inputs, base, i, zero),
{
    assert forall|j: int| 0 <= j < before.len() implies after[j] == before[j] by {
        assert(after.subrange(0, before.len() as int)[j] == after[j]);
    }
    assert(fits(before[base + 2 * i], base + 2 * i));
    assert(before[base + 2 * i].producers[0] < base + 2 * i);
    assert(before[base + 2 * i].producers[1] < base + 2 * i);
    lemma_derived_stays(
        before,
        after,
        base + 2 * i,
        Op::Mul,
        seq![inputs[i].id, neuron.weights@[i].id],
        product_label(
            before[inputs[i].id as int].label,
            before[neuron.weights@[i].id as int].label,
        ),
        zero,
    );
    lemma_derived_stays(
        before,
        after,
        base + 2 * i + 1,
        Op::Add,
        seq![sum_before(neuron, base, i) as usize, (base + 2 * i) as usize],
        sum_label(before[sum_before(neuron, base, i)].label, before[base + 2 * i].label),
        zero,
    );
}

/// The parameters of a neuron stay as they are when more nodes are added.
pub proof fn lemma_neuron_stays<T>(
    before: Seq<Node<T>>,
    after: Seq<Node<T>>,
    neuron: Neuron,
    base: int,
    count: int,
    zero: T,
)
    requires
        0 <= base,
        0 <= count,
        base + count < before.len() <= after.len(),
        after.subrange(0, before.len() as int) == before,
        neuron_at(before, neuron, base, count, zero),
    ensures
        neuron_at(after, neuron, base, count, zero),
{
    reveal(neuron_at);
    assert forall|j: int| 0 <= j < before.len() implies after[j] == before[j] by {
        assert(after.subrange(0, before.len() as int)[j] == after[j]);
    }
    assert forall|i: int| 0 <= i < count implies (#[trigger] neuron.weights@[i]).id == base + i
        && after[base + i] == leaf(after[base + i].data, weight_label(i as nat), zero) by {
        assert(after[base + i] == before[base + i]);
    }
    assert(after[base + count] == before[base + count]);
}

/// The nodes of a neuron's forward computation stay as they are when more
/// nodes are added.
pub proof fn lemma_activated_stays<T>(
    before: Seq<Node<T>>,
    after: Seq<Node<T>>,
    neuron: Neuron,
    inputs: Seq<Scalar>,
    base: int,
    out: Scalar,
    zero: T,
)
    requires
        well_formed(before),
        0 <= base,
        inputs.len() == neuron.weights@.len(),
        base + 2 * inputs.len() < before.len() <= after.len(),
        neuron.bias.id < before.len(),
        after.subrange(0, before.len() as int) == before,
        activated(before, neuron, inputs, base, out, zero),
    ensures
        activated(after, neuron, inputs, base, out, zero),
{
    reveal(activated);
    let count = inputs.len() as int;
    assert forall|j: int| 0 <= j < before.len() implies after[j] == before[j] by {
        assert(after.subrange(0, before.len() as int)[j] == after[j]);
    }
    assert forall|i: int| 0 <= i < count implies #[trigger] term_made(
        after,
        neuron,
        inputs,
        base,
        i,
        zero,
    ) by {
        assert(term_made(before, neuron, inputs, base, i, zero));
        lemma_term_stays(before, after, neuron, inputs, base, i, zero);
    }
    lemma_derived_stays(
        before,
        after,
        base + 2 * count,
        Op::Tanh,
        seq![sum_before(neuron, base, count) as usize],
        tanh_label(before[sum_before(neuron, base, count)].label),
        zero,
    );
    assert(fits(before[base + 2 * count], base + 2 * count));
    assert(before[base + 2 * count].producers[0] < base + 2 * count);
}

} // verus!
