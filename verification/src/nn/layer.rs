//! A layer: neurons side by side, each given the same inputs.
use crate::graph::{lemma_grown_twice, well_formed, Graph, Node};
use crate::nn::neuron::{
    activated, lemma_activated_stays, lemma_neuron_stays, neuron_at, Neuron,
};
use crate::nn::{all_below, input_leaves, leaf, lemma_slots, row, width, zero_all, zeroed};
use crate::scalar::Scalar;
use num_traits::Float;
use rand::distributions::uniform::SampleUniform;
use vstd::prelude::*;

verus! {

/// A layer: neurons that each take the same inputs.
pub struct Layer {
    pub neurons: Vec<Neuron>,
}

/// The parameters of `neurons`, neuron after neuron.
pub open spec fn parameters_of(neurons: Seq<Neuron>) -> Seq<Scalar>
    decreases neurons.len(),
{
    if neurons.len() == 0 {
        Seq::empty()
    } else {
        parameters_of(neurons.drop_last()) + neurons.last().parameter_list()
    }
}

/// The neurons of a layer stand in a row from `base` on: there are `outputs`
/// of them, each with `inputs` weights and a bias.
pub open spec fn layer_at<T>(
    nodes: Seq<Node<T>>,
    layer: Layer,
    base: int,
    inputs: int,
    outputs: int,
    zero: T,
) -> bool {
    &&& layer.neurons@.len() == outputs
    &&& forall|k: int|
        0 <= k < outputs ==> neuron_at(
            nodes,
            #[trigger] layer.neurons@[k],
            base + k * (inputs + 1),
            inputs,
            zero,
        )
}

/// The handle to the output of the `k`-th neuron of a layer whose forward
/// computation on `inputs` inputs starts at `base`.
pub open spec fn output_at(base: int, inputs: int, k: int) -> Scalar {
    Scalar { id: (base + k * (2 * inputs + 1) + 2 * inputs) as usize }
}

/// The outputs of a layer of `outputs` neurons whose forward computation on
/// `inputs` inputs starts at `base`.
pub open spec fn output_row(base: int, inputs: int, outputs: nat) -> Seq<Scalar> {
    Seq::new(outputs, |k: int| output_at(base, inputs, k))
}

/// The nodes of a layer's forward computation on `inputs`, from `base` on:
/// those of its first neuron, then those of its second, and so on.
pub open spec fn layer_activated<T>(
    nodes: Seq<Node<T>>,
    layer: Layer,
    inputs: Seq<Scalar>,
    base: int,
    zero: T,
) -> bool {
    forall|k: int|
        0 <= k < layer.neurons@.len() ==> activated(
            nodes,
            #[trigger] layer.neurons@[k],
            inputs,
            base + k * (2 * inputs.len() + 1),
            output_at(base, inputs.len() as int, k),
            zero,
        )
}

impl Layer {
    /// Every parameter of the layer is a node of `graph`.
    pub open spec fn within<T>(&self, graph: &Graph<T>) -> bool {
        forall|k: int| 0 <= k < self.neurons@.len() ==> (#[trigger] self.neurons@[k]).within(graph)
    }

    /// Every neuron of the layer has `count` weights.
    pub open spec fn takes(&self, count: nat) -> bool {
        forall|k: int|
            0 <= k < self.neurons@.len() ==> (#[trigger] self.neurons@[k]).weights@.len() == count
    }

    /// The parameters, as [`Layer::parameters`] returns them.
    pub open spec fn parameter_list(&self) -> Seq<Scalar> {
        parameters_of(self.neurons@)
    }

    /// Whether [`Layer::forward`] can be called with `count` inputs: whether
    /// every parameter of the layer is a node of `graph`, and every neuron
    /// has `count` weights.
    pub fn accepts<T: Float>(&self, graph: &Graph<T>, count: usize) -> (ok: bool)
        ensures
            ok == (self.within(graph) && self.takes(count as nat)),
    {
        let mut k: usize = 0;
        while k < self.neurons.len()
            invariant
                k <= self.neurons@.len(),
                forall|j: int| 0 <= j < k ==> (#[trigger] self.neurons@[j]).within(graph),
                forall|j: int| 0 <= j < k ==> (#[trigger] self.neurons@[j]).weights@.len() == count,
            decreases self.neurons@.len() - k,
        {
            let neuron = &self.neurons[k];
            if neuron.weights.len() != count || !neuron.is_within(graph) {
                assert(!(self.neurons@[k as int].within(graph) && self.neurons@[k as int].weights@.len()
                    == count));
                return false;
            }
            k += 1;
        }
        true
    }

    /// A layer of `num_outputs` neurons for `num_inputs` inputs each; a
    /// negative number counts as none.
    pub fn new<T: Float + SampleUniform>(
        graph: &mut Graph<T>,
        num_inputs: i32,
        num_outputs: i32,
    ) -> (layer: Layer)
        requires
            old(graph).wf(),
        ensures
            old(graph).grown_by(final(graph), width(num_outputs) * (width(num_inputs) + 1)),
            final(graph).wf(),
            layer_at(
                final(graph)@,
                layer,
                old(graph)@.len() as int,
                width(num_inputs) as int,
                width(num_outputs) as int,
                old(graph).zero,
            ),
            layer.within(final(graph)),
            layer.takes(width(num_inputs)),
    {
        let ghost base = graph@.len() as int;
        let ghost inputs = width(num_inputs) as int;
        let mut neurons: Vec<Neuron> = Vec::new();
        let mut k: i32 = 0;
        assert(graph@.subrange(0, graph@.len() as int) =~= graph@);
        assert(0 * (inputs + 1) == 0) by (nonlinear_arith);
        while k < num_outputs
            invariant
                0 <= k,
                k <= num_outputs || k == 0,
                base == old(graph)@.len(),
                inputs == width(num_inputs),
                neurons@.len() == k,
                old(graph).grown_by(graph, (k * (inputs + 1)) as nat),
                0 <= k * (inputs + 1),
                graph.wf(),
                forall|j: int|
                    0 <= j < k ==> neuron_at(
                        graph@,
                        #[trigger] neurons@[j],
                        base + j * (inputs + 1),
                        inputs,
                        old(graph).zero,
                    ),
                forall|j: int| 0 <= j < k ==> (#[trigger] neurons@[j]).within(graph),
                forall|j: int| 0 <= j < k ==> (#[trigger] neurons@[j]).weights@.len() == inputs,
            decreases num_outputs - k,
        {
            let ghost earlier = *graph;
            let ghost made = neurons@;
            let neuron = Neuron::new(graph, num_inputs);
            neurons.push(neuron);
            proof {
                lemma_slots(k as int, k + 1, inputs + 1);
                lemma_grown_twice(
                    *old(graph),
                    earlier,
                    *graph,
                    (k * (inputs + 1)) as nat,
                    (inputs + 1) as nat,
                );
                assert forall|j: int| 0 <= j < k + 1 implies neuron_at(
                    graph@,
                    #[trigger] neurons@[j],
                    base + j * (inputs + 1),
                    inputs,
                    old(graph).zero,
                ) by {
                    if j < k {
                        assert(neurons@[j] == made[j]);
                        lemma_slots(j, k as int, inputs + 1);
                        lemma_neuron_stays(
                            earlier@,
                            graph@,
                            made[j],
                            base + j * (inputs + 1),
                            inputs,
                            old(graph).zero,
                        );
                    }
                }
                assert forall|j: int| 0 <= j < k + 1 implies (#[trigger] neurons@[j]).within(
                    graph,
                ) by {
                    if j < k {
                        assert(neurons@[j] == made[j]);
                        assert(made[j].within(&earlier));
                        assert(all_below(made[j].weights@, graph@.len()));
                    }
                }
            }
            k += 1;
        }
        Layer { neurons }
    }

    /// The outputs of the layer's neurons for `inputs`, one for each neuron,
    /// in the order of the neurons.
    pub fn forward<T: Float>(&self, graph: &mut Graph<T>, inputs: &Vec<Scalar>) -> (outputs: Vec<
        Scalar,
    >)
        requires
            old(graph).wf(),
            self.within(old(graph)),
            self.takes(inputs@.len()),
            all_below(inputs@, old(graph)@.len()),
        ensures
            old(graph).grown_by(
                final(graph),
                self.neurons@.len() * (2 * inputs@.len() + 1),
            ),
            final(graph).wf(),
            layer_activated(
                final(graph)@,
                *self,
                inputs@,
                old(graph)@.len() as int,
                old(graph).zero,
            ),
            outputs@ == output_row(
                old(graph)@.len() as int,
                inputs@.len() as int,
                self.neurons@.len(),
            ),
    {
        let ghost base = graph@.len() as int;
        let ghost count = inputs@.len() as int;
        let ghost step = 2 * count + 1;
        let mut outputs: Vec<Scalar> = Vec::new();
        let mut k: usize = 0;
        assert(graph@.subrange(0, graph@.len() as int) =~= graph@);
        assert(0 * step == 0) by (nonlinear_arith);
        while k < self.neurons.len()
            invariant
                k <= self.neurons@.len(),
                base == old(graph)@.len(),
                count == inputs@.len(),
                step == 2 * count + 1,
                old(graph).wf(),
                self.within(old(graph)),
                self.takes(inputs@.len()),
                all_below(inputs@, old(graph)@.len()),
                outputs@.len() == k,
                0 <= k * step,
                old(graph).grown_by(graph, (k * step) as nat),
                graph.wf(),
                forall|j: int|
                    0 <= j < k ==> activated(
                        graph@,
                        #[trigger] self.neurons@[j],
                        inputs@,
                        base + j * step,
                        output_at(base, count, j),
                        old(graph).zero,
                    ),
                forall|j: int| 0 <= j < k ==> #[trigger] outputs@[j] == output_at(base, count, j),
            decreases self.neurons@.len() - k,
        {
            let ghost earlier = *graph;
            let ghost made = outputs@;
            let neuron = &self.neurons[k];
            assert(self.neurons@[k as int].within(old(graph)));
            assert(self.neurons@[k as int].weights@.len() == inputs@.len());
            assert(all_below(neuron.weights@, graph@.len()));
            assert(all_below(inputs@, graph@.len()));
            let result = neuron.forward(graph, inputs);
            let out = result.unwrap();
            outputs.push(out);
            proof {
                lemma_slots(k as int, k + 1, step);
                lemma_grown_twice(*old(graph), earlier, *graph, (k * step) as nat, step as nat);
                assert(out == output_at(base, count, k as int));
                assert forall|j: int| 0 <= j < k + 1 implies activated(
                    graph@,
                    #[trigger] self.neurons@[j],
                    inputs@,
                    base + j * step,
                    output_at(base, count, j),
                    old(graph).zero,
                ) by {
                    if j < k {
                        lemma_slots(j, k as int, step);
                        assert(self.neurons@[j].within(old(graph)));
                        assert(self.neurons@[j].weights@.len() == inputs@.len());
                        lemma_activated_stays(
                            earlier@,
                            graph@,
                            self.neurons@[j],
                            inputs@,
                            base + j * step,
                            output_at(base, count, j),
                            old(graph).zero,
                        );
                    }
                }
                assert forall|j: int| 0 <= j < k + 1 implies #[trigger] outputs@[j] == output_at(
                    base,
                    count,
                    j,
                ) by {
                    if j < k {
                        assert(outputs@[j] == made[j]);
                    }
                }
            }
            k += 1;
        }
        assert(outputs@ =~= output_row(base, count, self.neurons@.len()));
        outputs
    }

    /// The outputs of the layer's neurons for inputs given as numbers: a
    /// leaf with an empty label for each number, then as [`Layer::forward`]
    /// on those leaves.
    pub fn forward_with_numbers<T: Float>(&self, graph: &mut Graph<T>, inputs: &Vec<T>) -> (outputs:
        Vec<Scalar>)
        requires
            old(graph).wf(),
            self.within(old(graph)),
            self.takes(inputs@.len()),
        ensures
            old(graph).grown_by(
                final(graph),
                inputs@.len() + self.neurons@.len() * (2 * inputs@.len() + 1),
            ),
            final(graph).wf(),
            forall|i: int|
                0 <= i < inputs@.len() ==> #[trigger] final(graph)@[old(graph)@.len() as int + i]
                    == leaf(inputs@[i], Seq::<char>::empty(), old(graph).zero),
            layer_activated(
                final(graph)@,
                *self,
                row(old(graph)@.len() as int, inputs@.len()),
                old(graph)@.len() as int + inputs@.len(),
                old(graph).zero,
            ),
            outputs@ == output_row(
                old(graph)@.len() as int + inputs@.len(),
                inputs@.len() as int,
                self.neurons@.len(),
            ),
    {
        let scalars = input_leaves(graph, inputs);
        let ghost middle = *graph;
        proof {
            assert(all_below(scalars@, graph@.len()));
            assert forall|k: int| 0 <= k < self.neurons@.len() implies (#[trigger] self.neurons@[k]).within(
                graph,
            ) by {
                assert(self.neurons@[k].within(old(graph)));
                assert(all_below(self.neurons@[k].weights@, graph@.len()));
            }
            assert(0 <= self.neurons@.len() * (2 * inputs@.len() + 1)) by (nonlinear_arith);
        }
        let outputs = self.forward(graph, &scalars);
        proof {
            lemma_grown_twice(
                *old(graph),
                middle,
                *graph,
                inputs@.len(),
                self.neurons@.len() * (2 * inputs@.len() + 1),
            );
            assert forall|i: int| 0 <= i < inputs@.len() implies #[trigger] graph@[old(
                graph,
            )@.len() as int + i] == leaf(inputs@[i], Seq::<char>::empty(), old(graph).zero) by {
                assert(graph@[old(graph)@.len() as int + i] == middle@[old(graph)@.len() as int + i]);
            }
        }
        outputs
    }

    /// The parameters of the layer's neurons, neuron after neuron.
    pub fn parameters(&self) -> (parameters: Vec<Scalar>)
        ensures
            parameters@ == self.parameter_list(),
    {
        let mut parameters: Vec<Scalar> = Vec::new();
        let mut k: usize = 0;
        assert(self.neurons@.subrange(0, 0) =~= Seq::<Neuron>::empty());
        while k < self.neurons.len()
            invariant
                k <= self.neurons@.len(),
                parameters@ == parameters_of(self.neurons@.subrange(0, k as int)),
            decreases self.neurons@.len() - k,
        {
            let mut more = self.neurons[k].parameters();
            parameters.append(&mut more);
            proof {
                let longer = self.neurons@.subrange(0, k + 1);
                assert(longer.drop_last() =~= self.neurons@.subrange(0, k as int));
                assert(longer.last() == self.neurons@[k as int]);
            }
            k += 1;
        }
        assert(self.neurons@.subrange(0, k as int) =~= self.neurons@);
        parameters
    }

    /// Resets the gradient of every parameter of the layer.
    pub fn zero_grad<T: Float>(&self, graph: &mut Graph<T>)
        requires
            self.within(old(graph)),
        ensures
            zeroed(old(graph)@, self.parameter_list(), old(graph).zero, final(graph)@),
            old(graph).regraded(final(graph)),
            old(graph).wf() ==> final(graph).wf(),
    {
        let parameters = self.parameters();
        proof {
            lemma_parameters_below(self.neurons@, graph@.len());
        }
        zero_all(graph, &parameters);
    }
}

/// The parameters of neurons whose parameters are nodes of a graph are
/// nodes of that graph.
pub proof fn lemma_parameters_below(neurons: Seq<Neuron>, count: nat)
    requires
        forall|k: int|
            0 <= k < neurons.len() ==> all_below((#[trigger] neurons[k]).weights@, count)
                && neurons[k].bias.id < count,
    ensures
        all_below(parameters_of(neurons), count),
    decreases neurons.len(),
{
    if neurons.len() > 0 {
        let earlier = neurons.drop_last();
        assert forall|k: int| 0 <= k < earlier.len() implies all_below(
            (#[trigger] earlier[k]).weights@,
            count,
        ) && earlier[k].bias.id < count by {
            assert(earlier[k] == neurons[k]);
        }
        lemma_parameters_below(earlier, count);
        let last = neurons.last();
        assert(all_below(last.weights@, count));
        let all = parameters_of(neurons);
        assert forall|i: int| 0 <= i < all.len() implies (#[trigger] all[i]).id < count by {
            let head = parameters_of(earlier);
            if i < head.len() {
                assert(all[i] == head[i]);
            } else {
                let j = i - head.len();
                assert(all[i] == last.parameter_list()[j]);
                if j < last.weights@.len() {
                    assert(last.parameter_list()[j] == last.weights@[j]);
                }
            }
        }
    }
}

/// The neurons of a layer stay as they are when more nodes are added.
pub proof fn lemma_layer_stays<T>(
    before: Seq<Node<T>>,
    after: Seq<Node<T>>,
    layer: Layer,
    base: int,
    inputs: int,
    outputs: int,
    zero: T,
)
    requires
        0 <= base,
        0 <= inputs,
        0 <= outputs,
        base + outputs * (inputs + 1) <= before.len() <= after.len(),
        after.subrange(0, before.len() as int) == before,
        layer_at(before, layer, base, inputs, outputs, zero),
    ensures
        layer_at(after, layer, base, inputs, outputs, zero),
{
    assert forall|k: int| 0 <= k < outputs implies neuron_at(
        after,
        #[trigger] layer.neurons@[k],
        base + k * (inputs + 1),
        inputs,
        zero,
    ) by {
        lemma_slots(k, outputs, inputs + 1);
        lemma_neuron_stays(before, after, layer.neurons@[k], base + k * (inputs + 1), inputs, zero);
    }
}

/// The nodes of a layer's forward computation stay as they are when more
/// nodes are added.
pub proof fn lemma_layer_activated_stays<T>(
    before: Seq<Node<T>>,
    after: Seq<Node<T>>,
    layer: Layer,
    inputs: Seq<Scalar>,
    base: int,
    zero: T,
)
    requires
        well_formed(before),
        0 <= base,
        layer.takes(inputs.len()),
        forall|k: int|
            0 <= k < layer.neurons@.len() ==> (#[trigger] layer.neurons@[k]).bias.id < before.len(),
        base + layer.neurons@.len() * (2 * inputs.len() + 1) <= before.len() <= after.len(),
        after.subrange(0, before.len() as int) == before,
        layer_activated(before, layer, inputs, base, zero),
    ensures
        layer_activated(after, layer, inputs, base, zero),
{
    let step = 2 * (inputs.len() as int) + 1;
    assert forall|k: int| 0 <= k < layer.neurons@.len() implies activated(
        after,
        #[trigger] layer.neurons@[k],
        inputs,
        base + k * step,
        output_at(base, inputs.len() as int, k),
        zero,
    ) by {
        lemma_slots(k, layer.neurons@.len() as int, step);
        lemma_activated_stays(
            before,
            after,
            layer.neurons@[k],
            inputs,
            base + k * step,
            output_at(base, inputs.len() as int, k),
            zero,
        );
    }
}

/// The outputs of a layer's forward computation are nodes of the graph
/// that holds it.
pub(crate) proof fn lemma_outputs_below(base: int, inputs: int, outputs: nat, count: nat)
    requires
        0 <= base,
        0 <= inputs,
        base + outputs * (2 * inputs + 1) <= count <= usize::MAX,
    ensures
        all_below(output_row(base, inputs, outputs), count),
{
    assert forall|k: int| 0 <= k < outputs implies (#[trigger] output_row(
        base,
        inputs,
        outputs,
    )[k]).id < count by {
        lemma_slots(k, outputs as int, 2 * inputs + 1);
    }
}

} // verus!
