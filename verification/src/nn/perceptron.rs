//! A multi-layer perceptron: layers in a chain.
use crate::graph::{lemma_grown_twice, Graph, Node};
use crate::nn::layer::{
    layer_activated, layer_at, lemma_layer_activated_stays, lemma_layer_stays,
    lemma_outputs_below, lemma_parameters_below, output_row, Layer,
};
use crate::nn::{all_below, leaf, row, width, zero_all, zeroed};
use crate::scalar::Scalar;
use num_traits::Float;
use rand::distributions::uniform::SampleUniform;
use vstd::prelude::*;

verus! {

/// A multi-layer perceptron: layers in a chain, the outputs of each the
/// inputs of the next.
pub struct MultiLayerPerceptron {
    pub layers: Vec<Layer>,
}

/// The number of inputs of the `j`-th layer of a perceptron made for
/// `num_inputs` inputs with layers of the sizes `sizes`.
pub open spec fn fan_in(num_inputs: nat, sizes: Seq<i32>, j: int) -> nat {
    if j <= 0 {
        num_inputs
    } else {
        width(sizes[j - 1])
    }
}

/// The number of parameters of the first `j` layers of a perceptron made
/// for `num_inputs` inputs with layers of the sizes `sizes`.
pub open spec fn parameters_before(num_inputs: nat, sizes: Seq<i32>, j: int) -> nat
    decreases j,
{
    if j <= 0 {
        0
    } else {
        parameters_before(num_inputs, sizes, j - 1) + width(sizes[j - 1]) * (fan_in(
            num_inputs,
            sizes,
            j - 1,
        ) + 1)
    }
}

/// The layers of a perceptron stand one after another from `base` on, the
/// `j`-th with as many neurons as `sizes[j]` says, each for as many inputs
/// as the layer before it has neurons.
pub open spec fn perceptron_at<T>(
    nodes: Seq<Node<T>>,
    layers: Seq<Layer>,
    base: int,
    num_inputs: nat,
    sizes: Seq<i32>,
    zero: T,
) -> bool {
    &&& layers.len() == sizes.len()
    &&& forall|j: int|
        0 <= j < sizes.len() ==> layer_at(
            nodes,
            #[trigger] layers[j],
            base + parameters_before(num_inputs, sizes, j),
            fan_in(num_inputs, sizes, j) as int,
            width(sizes[j]) as int,
            zero,
        )
}

/// The number of inputs that the `j`-th of `layers` is given in a forward
/// computation on `count` numbers.
pub open spec fn stage_size(count: nat, layers: Seq<Layer>, j: int) -> nat {
    if j <= 0 {
        count
    } else {
        layers[j - 1].neurons@.len()
    }
}

/// The neurons of the `j`-th of `layers` have as many weights as the layer
/// is given inputs in a forward computation on `count` numbers.
pub open spec fn takes_at(layers: Seq<Layer>, count: nat, j: int) -> bool {
    layers[j].takes(stage_size(count, layers, j))
}

/// The number of nodes that the first `j` of `layers` add in a forward
/// computation on `count` numbers.
pub open spec fn nodes_before(count: nat, layers: Seq<Layer>, j: int) -> nat
    decreases j,
{
    if j <= 0 {
        0
    } else {
        nodes_before(count, layers, j - 1) + layers[j - 1].neurons@.len() * (2 * stage_size(
            count,
            layers,
            j - 1,
        ) + 1)
    }
}

/// The inputs of the `j`-th of `layers` in a forward computation on `count`
/// numbers whose nodes start at `base`: the leaves of the numbers for the
/// first layer, the outputs of the layer before it for another. For `j` the
/// number of layers these are the outputs of the last layer.
pub open spec fn stage_inputs(base: int, count: nat, layers: Seq<Layer>, j: int) -> Seq<Scalar> {
    if j <= 0 {
        row(base, count)
    } else {
        output_row(
            base + count + nodes_before(count, layers, j - 1),
            stage_size(count, layers, j - 1) as int,
            layers[j - 1].neurons@.len(),
        )
    }
}

/// `nodes` holds the nodes of the forward computation of the `l`-th of
/// `layers`, in a forward computation on `count` numbers that started from
/// the graph `before`.
pub open spec fn stage_done<T>(
    before: Graph<T>,
    nodes: Seq<Node<T>>,
    layers: Seq<Layer>,
    count: nat,
    l: int,
) -> bool {
    layer_activated(
        nodes,
        layers[l],
        stage_inputs(before@.len() as int, count, layers, l),
        before@.len() as int + count + nodes_before(count, layers, l),
        before.zero,
    )
}

/// `now` is `before` after a forward computation on `inputs` has gone
/// through the first `j` of `layers`: a leaf with an empty label for each
/// input, then the nodes of each of those layers, layer after layer.
#[verifier::opaque]
pub open spec fn forwarded<T>(
    before: Graph<T>,
    now: Graph<T>,
    layers: Seq<Layer>,
    inputs: Seq<T>,
    j: int,
) -> bool {
    let base = before@.len() as int;
    let count = inputs.len();
    &&& before.grown_by(&now, count + nodes_before(count, layers, j))
    &&& forall|i: int|
        0 <= i < count ==> #[trigger] now@[base + i] == leaf(
            inputs[i],
            Seq::<char>::empty(),
            before.zero,
        )
    &&& forall|l: int| 0 <= l < j ==> #[trigger] stage_done(before, now@, layers, count, l)
}

/// The parameters of `layers`, layer after layer.
pub open spec fn layer_parameters(layers: Seq<Layer>) -> Seq<Scalar>
    decreases layers.len(),
{
    if layers.len() == 0 {
        Seq::empty()
    } else {
        layer_parameters(layers.drop_last()) + layers.last().parameter_list()
    }
}

impl MultiLayerPerceptron {
    /// Every parameter of the perceptron is a node of `graph`.
    pub open spec fn within<T>(&self, graph: &Graph<T>) -> bool {
        forall|j: int| 0 <= j < self.layers@.len() ==> (#[trigger] self.layers@[j]).within(graph)
    }

    /// The perceptron can be given `count` numbers: the neurons of its first
    /// layer have `count` weights, and those of every other layer have as
    /// many weights as the layer before it has neurons.
    pub open spec fn takes(&self, count: nat) -> bool {
        forall|j: int| 0 <= j < self.layers@.len() ==> #[trigger] takes_at(self.layers@, count, j)
    }

    /// The parameters, as [`MultiLayerPerceptron::parameters`] returns them.
    pub open spec fn parameter_list(&self) -> Seq<Scalar> {
        layer_parameters(self.layers@)
    }

    /// Whether [`MultiLayerPerceptron::forward`] can be called with `count`
    /// numbers: whether the perceptron has a layer, every parameter is a
    /// node of `graph`, and every layer fits what it is given.
    pub fn accepts<T: Float>(&self, graph: &Graph<T>, count: usize) -> (ok: bool)
        ensures
            ok == (self.layers@.len() > 0 && self.within(graph) && self.takes(count as nat)),
    {
        if self.layers.len() == 0 {
            return false;
        }
        let mut arriving = count;
        let mut j: usize = 0;
        while j < self.layers.len()
            invariant
                j <= self.layers@.len(),
                arriving == stage_size(count as nat, self.layers@, j as int),
                forall|l: int| 0 <= l < j ==> (#[trigger] self.layers@[l]).within(graph),
                forall|l: int| 0 <= l < j ==> #[trigger] takes_at(self.layers@, count as nat, l),
            decreases self.layers@.len() - j,
        {
            let layer = &self.layers[j];
            if !layer.accepts(graph, arriving) {
                assert(!(self.layers@[j as int].within(graph) && takes_at(
                    self.layers@,
                    count as nat,
                    j as int,
                )));
                return false;
            }
            arriving = layer.neurons.len();
            j += 1;
        }
        true
    }

    /// A perceptron for `num_inputs` inputs, with one layer for each element
    /// of `layer_num_outputs`, of that many neurons; a negative number counts
    /// as none.
    pub fn new<T: Float + SampleUniform>(
        graph: &mut Graph<T>,
        num_inputs: i32,
        layer_num_outputs: Vec<i32>,
    ) -> (perceptron: MultiLayerPerceptron)
        requires
            old(graph).wf(),
        ensures
            old(graph).grown_by(
                final(graph),
                parameters_before(
                    width(num_inputs),
                    layer_num_outputs@,
                    layer_num_outputs@.len() as int,
                ),
            ),
            final(graph).wf(),
            perceptron_at(
                final(graph)@,
                perceptron.layers@,
                old(graph)@.len() as int,
                width(num_inputs),
                layer_num_outputs@,
                old(graph).zero,
            ),
            perceptron.within(final(graph)),
            perceptron.takes(width(num_inputs)),
    {
        let ghost base = graph@.len() as int;
        let ghost first = width(num_inputs);
        let ghost sizes = layer_num_outputs@;
        let mut layers: Vec<Layer> = Vec::new();
        let mut inputs = num_inputs;
        let mut j: usize = 0;
        assert(graph@.subrange(0, graph@.len() as int) =~= graph@);
        while j < layer_num_outputs.len()
            invariant
                j <= sizes.len(),
                sizes == layer_num_outputs@,
                base == old(graph)@.len(),
                first == width(num_inputs),
                width(inputs) == fan_in(first, sizes, j as int),
                layers@.len() == j,
                old(graph).grown_by(graph, parameters_before(first, sizes, j as int)),
                graph.wf(),
                forall|l: int|
                    0 <= l < j ==> layer_at(
                        graph@,
                        #[trigger] layers@[l],
                        base + parameters_before(first, sizes, l),
                        fan_in(first, sizes, l) as int,
                        width(sizes[l]) as int,
                        old(graph).zero,
                    ),
                forall|l: int| 0 <= l < j ==> (#[trigger] layers@[l]).within(graph),
                forall|l: int| 0 <= l < j ==> #[trigger] takes_at(layers@, first, l),
                forall|l: int| 0 <= l < j ==> (#[trigger] layers@[l]).neurons@.len() == width(sizes[l]),
            decreases sizes.len() - j,
        {
            let ghost earlier = *graph;
            let ghost made = layers@;
            let outputs = layer_num_outputs[j];
            let layer = Layer::new(graph, inputs, outputs);
            layers.push(layer);
            proof {
                let span = width(outputs) * (width(inputs) + 1);
                assert(0 <= span) by (nonlinear_arith)
                    requires
                        span == width(outputs) * (width(inputs) + 1),
                ;
                lemma_grown_twice(
                    *old(graph),
                    earlier,
                    *graph,
                    parameters_before(first, sizes, j as int),
                    span as nat,
                );
                assert(parameters_before(first, sizes, j + 1) == parameters_before(
                    first,
                    sizes,
                    j as int,
                ) + span);
                assert forall|l: int| 0 <= l < j + 1 implies layer_at(
                    graph@,
                    #[trigger] layers@[l],
                    base + parameters_before(first, sizes, l),
                    fan_in(first, sizes, l) as int,
                    width(sizes[l]) as int,
                    old(graph).zero,
                ) by {
                    if l < j {
                        assert(layers@[l] == made[l]);
                        lemma_parameters_grow(first, sizes, l, j as int);
                        lemma_layer_stays(
                            earlier@,
                            graph@,
                            made[l],
                            base + parameters_before(first, sizes, l),
                            fan_in(first, sizes, l) as int,
                            width(sizes[l]) as int,
                            old(graph).zero,
                        );
                    }
                }
                assert forall|l: int| 0 <= l < j + 1 implies (#[trigger] layers@[l]).within(
                    graph,
                ) by {
                    if l < j {
                        assert(layers@[l] == made[l]);
                        assert(made[l].within(&earlier));
                        assert forall|k: int| 0 <= k < made[l].neurons@.len() implies (
                        #[trigger] made[l].neurons@[k]).within(graph) by {
                            assert(made[l].neurons@[k].within(&earlier));
                            assert(all_below(made[l].neurons@[k].weights@, graph@.len()));
                        }
                    }
                }
                assert forall|l: int| 0 <= l < j + 1 implies #[trigger] takes_at(
                    layers@,
                    first,
                    l,
                ) by {
                    if l < j {
                        assert(layers@[l] == made[l]);
                        assert(takes_at(made, first, l));
                    }
                    if l > 0 {
                        assert(layers@[l - 1] == made[l - 1]);
                    }
                }
            }
            inputs = outputs;
            j += 1;
        }
        MultiLayerPerceptron { layers }
    }

    /// The outputs of the last layer for the given numbers: a leaf with an
    /// empty label for each number, then the forward computation of each
    /// layer on the outputs of the layer before it.
    pub fn forward<T: Float>(&self, graph: &mut Graph<T>, inputs: &Vec<T>) -> (outputs: Vec<Scalar>)
        requires
            old(graph).wf(),
            self.layers@.len() > 0,
            self.within(old(graph)),
            self.takes(inputs@.len()),
        ensures
            final(graph).wf(),
            forwarded(
                *old(graph),
                *final(graph),
                self.layers@,
                inputs@,
                self.layers@.len() as int,
            ),
            outputs@ == stage_inputs(
                old(graph)@.len() as int,
                inputs@.len(),
                self.layers@,
                self.layers@.len() as int,
            ),
    {
        let ghost layers = self.layers@;
        assert(layers[0].within(old(graph)));
        assert(takes_at(layers, inputs@.len(), 0));
        let mut hidden = self.layers[0].forward_with_numbers(graph, inputs);
        let mut j: usize = 1;
        proof {
            lemma_forward_started(*old(graph), *graph, layers, inputs@);
        }
        while j < self.layers.len()
            invariant
                1 <= j <= layers.len(),
                layers == self.layers@,
                old(graph).wf(),
                self.within(old(graph)),
                self.takes(inputs@.len()),
                graph.wf(),
                forwarded(*old(graph), *graph, layers, inputs@, j as int),
                hidden@ == stage_inputs(old(graph)@.len() as int, inputs@.len(), layers, j as int),
            decreases layers.len() - j,
        {
            let ghost earlier = *graph;
            let layer = &self.layers[j];
            proof {
                lemma_forward_ready(*old(graph), *graph, *self, inputs@, j as int);
            }
            hidden = layer.forward(graph, &hidden);
            proof {
                lemma_forward_continued(*old(graph), earlier, *graph, *self, inputs@, j as int);
            }
            j += 1;
        }
        hidden
    }

    /// The parameters of the layers, layer after layer.
    pub fn parameters(&self) -> (parameters: Vec<Scalar>)
        ensures
            parameters@ == self.parameter_list(),
    {
        let mut parameters: Vec<Scalar> = Vec::new();
        let mut j: usize = 0;
        assert(self.layers@.subrange(0, 0) =~= Seq::<Layer>::empty());
        while j < self.layers.len()
            invariant
                j <= self.layers@.len(),
                parameters@ == layer_parameters(self.layers@.subrange(0, j as int)),
            decreases self.layers@.len() - j,
        {
            let mut more = self.layers[j].parameters();
            parameters.append(&mut more);
            proof {
                let longer = self.layers@.subrange(0, j + 1);
                assert(longer.drop_last() =~= self.layers@.subrange(0, j as int));
                assert(longer.last() == self.layers@[j as int]);
            }
            j += 1;
        }
        assert(self.layers@.subrange(0, j as int) =~= self.layers@);
        parameters
    }

    /// Resets the gradient of every parameter of the perceptron.
    pub fn zero_grad<T: Float>(&self, graph: &mut Graph<T>)
        requires
            self.within(old(graph)),
        ensures
            zeroed(old(graph)@, self.parameter_list(), old(graph).zero, final(graph)@),
            old(graph).regraded(final(graph)),
            old(graph).wf() ==> final(graph).wf(),
    {
        let parameters = self.parameters();
        proof {
            lemma_layer_parameters_below(self.layers@, graph);
        }
        zero_all(graph, &parameters);
    }
}

/// The parameters of layers whose parameters are nodes of a graph are nodes
/// of that graph.
pub proof fn lemma_layer_parameters_below<T>(layers: Seq<Layer>, graph: &Graph<T>)
    requires
        forall|j: int| 0 <= j < layers.len() ==> (#[trigger] layers[j]).within(graph),
    ensures
        all_below(layer_parameters(layers), graph@.len()),
    decreases layers.len(),
{
    if layers.len() > 0 {
        let earlier = layers.drop_last();
        assert forall|j: int| 0 <= j < earlier.len() implies (#[trigger] earlier[j]).within(
            graph,
        ) by {
            assert(earlier[j] == layers[j]);
        }
        lemma_layer_parameters_below(earlier, graph);
        let last = layers.last();
        assert(last.within(graph));
        lemma_parameters_below(last.neurons@, graph@.len());
        let all = layer_parameters(layers);
        assert forall|i: int| 0 <= i < all.len() implies (#[trigger] all[i]).id < graph@.len() by {
            let head = layer_parameters(earlier);
            if i < head.len() {
                assert(all[i] == head[i]);
            } else {
                assert(all[i] == last.parameter_list()[i - head.len()]);
            }
        }
    }
}

/// The parameters of the first `l` layers end before those of the first `j`
/// layers do, when `l` is below `j`.
proof fn lemma_parameters_grow(num_inputs: nat, sizes: Seq<i32>, l: int, j: int)
    requires
        0 <= l < j,
    ensures
        parameters_before(num_inputs, sizes, l) + width(sizes[l]) * (fan_in(num_inputs, sizes, l)
            + 1) <= parameters_before(num_inputs, sizes, j),
        0 <= width(sizes[l]) * (fan_in(num_inputs, sizes, l) + 1),
    decreases j,
{
    assert(0 <= width(sizes[l]) * (fan_in(num_inputs, sizes, l) + 1)) by (nonlinear_arith);
    if l + 1 < j {
        lemma_parameters_grow(num_inputs, sizes, l, j - 1);
        assert(0 <= width(sizes[j - 1]) * (fan_in(num_inputs, sizes, j - 1) + 1))
            by (nonlinear_arith);
    }
}

/// The nodes that the first `l` layers add end before those of the first
/// `j` layers do, when `l` is below `j`.
proof fn lemma_nodes_grow(count: nat, layers: Seq<Layer>, l: int, j: int)
    requires
        0 <= l < j,
    ensures
        nodes_before(count, layers, l) + layers[l].neurons@.len() * (2 * stage_size(
            count,
            layers,
            l,
        ) + 1) <= nodes_before(count, layers, j),
        0 <= layers[l].neurons@.len() * (2 * stage_size(count, layers, l) + 1),
    decreases j,
{
    assert(0 <= layers[l].neurons@.len() * (2 * stage_size(count, layers, l) + 1))
        by (nonlinear_arith);
    if l + 1 < j {
        lemma_nodes_grow(count, layers, l, j - 1);
        assert(0 <= layers[j - 1].neurons@.len() * (2 * stage_size(count, layers, j - 1) + 1))
            by (nonlinear_arith);
    }
}

proof fn lemma_forward_started<T>(before: Graph<T>, now: Graph<T>, layers: Seq<Layer>, inputs: Seq<T>)
    requires
        layers.len() > 0,
        before.grown_by(&now, inputs.len() + layers[0].neurons@.len() * (2 * inputs.len() + 1)),
        forall|i: int|
            0 <= i < inputs.len() ==> #[trigger] now@[before@.len() as int + i] == leaf(
                inputs[i],
                Seq::<char>::empty(),
                before.zero,
            ),
        layer_activated(
            now@,
            layers[0],
            row(before@.len() as int, inputs.len()),
            before@.len() as int + inputs.len(),
            before.zero,
        ),
    ensures
        forwarded(before, now, layers, inputs, 1),
{
    reveal(forwarded);
    assert(nodes_before(inputs.len(), layers, 0) == 0);
    assert(nodes_before(inputs.len(), layers, 1) == nodes_before(inputs.len(), layers, 0)
        + layers[0].neurons@.len() * (2 * stage_size(inputs.len(), layers, 0) + 1));
}

proof fn lemma_forward_ready<T>(
    before: Graph<T>,
    now: Graph<T>,
    perceptron: MultiLayerPerceptron,
    inputs: Seq<T>,
    j: int,
)
    requires
        1 <= j < perceptron.layers@.len(),
        perceptron.within(&before),
        perceptron.takes(inputs.len()),
        forwarded(before, now, perceptron.layers@, inputs, j),
    ensures
        perceptron.layers@[j].within(&now),
        perceptron.layers@[j].takes(
            stage_inputs(before@.len() as int, inputs.len(), perceptron.layers@, j).len(),
        ),
        all_below(
            stage_inputs(before@.len() as int, inputs.len(), perceptron.layers@, j),
            now@.len(),
        ),
        now@.len() == before@.len() + inputs.len() + nodes_before(
            inputs.len(),
            perceptron.layers@,
            j,
        ),
        stage_inputs(before@.len() as int, inputs.len(), perceptron.layers@, j).len()
            == stage_size(inputs.len(), perceptron.layers@, j),
{
    reveal(forwarded);
    let layers = perceptron.layers@;
    let layer = layers[j];
    let count = inputs.len();
    let base = before@.len() as int;
    assert(layer.within(&before));
    assert(takes_at(layers, count, j));
    assert forall|k: int| 0 <= k < layer.neurons@.len() implies (#[trigger] layer.neurons@[k]).within(
        &now,
    ) by {
        assert(layer.neurons@[k].within(&before));
        assert(all_below(layer.neurons@[k].weights@, now@.len()));
    }
    assert(now@.len() == now.nodes.len());
    lemma_nodes_grow(count, layers, j - 1, j);
    assert(nodes_before(count, layers, j) == nodes_before(count, layers, j - 1) + layers[j
        - 1].neurons@.len() * (2 * stage_size(count, layers, j - 1) + 1));
    lemma_outputs_below(
        base + count + nodes_before(count, layers, j - 1),
        stage_size(count, layers, j - 1) as int,
        layers[j - 1].neurons@.len(),
        now@.len(),
    );
}

proof fn lemma_layer_kept<T>(
    before: Graph<T>,
    earlier: Graph<T>,
    now: Graph<T>,
    layer: Layer,
    inputs: Seq<Scalar>,
    base: int,
    span: nat,
)
    requires
        earlier.wf(),
        layer.within(&before),
        layer.takes(inputs.len()),
        before@.len() <= earlier@.len(),
        0 <= base,
        base + layer.neurons@.len() * (2 * inputs.len() + 1) <= earlier@.len(),
        earlier.grown_by(&now, span),
        layer_activated(earlier@, layer, inputs, base, before.zero),
    ensures
        layer_activated(now@, layer, inputs, base, before.zero),
{
    assert forall|k: int| 0 <= k < layer.neurons@.len() implies (#[trigger] layer.neurons@[k]).bias.id
        < earlier@.len() by {
        assert(layer.neurons@[k].within(&before));
    }
    lemma_layer_activated_stays(earlier@, now@, layer, inputs, base, before.zero);
}

proof fn lemma_forward_continued<T>(
    before: Graph<T>,
    earlier: Graph<T>,
    now: Graph<T>,
    perceptron: MultiLayerPerceptron,
    inputs: Seq<T>,
    j: int,
)
    requires
        1 <= j < perceptron.layers@.len(),
        earlier.wf(),
        perceptron.within(&before),
        perceptron.takes(inputs.len()),
        forwarded(before, earlier, perceptron.layers@, inputs, j),
        earlier.grown_by(
            &now,
            perceptron.layers@[j].neurons@.len() * (2 * stage_inputs(
                before@.len() as int,
                inputs.len(),
                perceptron.layers@,
                j,
            ).len() + 1),
        ),
        layer_activated(
            now@,
            perceptron.layers@[j],
            stage_inputs(before@.len() as int, inputs.len(), perceptron.layers@, j),
            earlier@.len() as int,
            earlier.zero,
        ),
    ensures
        forwarded(before, now, perceptron.layers@, inputs, j + 1),
{
    reveal(forwarded);
    let layers = perceptron.layers@;
    let count = inputs.len();
    let base = before@.len() as int;
    let span = layers[j].neurons@.len() * (2 * stage_size(count, layers, j) + 1);
    assert(stage_inputs(base, count, layers, j).len() == stage_size(count, layers, j));
    lemma_nodes_grow(count, layers, j, j + 1);
    assert(nodes_before(count, layers, j + 1) == nodes_before(count, layers, j) + span);
    lemma_grown_twice(before, earlier, now, count + nodes_before(count, layers, j), span as nat);
    assert forall|i: int| 0 <= i < count implies #[trigger] now@[base + i] == leaf(
        inputs[i],
        Seq::<char>::empty(),
        before.zero,
    ) by {
        assert(now@[base + i] == earlier@[base + i]);
    }
    assert forall|l: int| 0 <= l < j + 1 implies #[trigger] stage_done(
        before,
        now@,
        layers,
        count,
        l,
    ) by {
        if l < j {
            lemma_nodes_grow(count, layers, l, j);
            assert(layers[l].within(&before));
            assert(takes_at(layers, count, l));
            assert(stage_done(before, earlier@, layers, count, l));
            assert(stage_inputs(base, count, layers, l).len() == stage_size(count, layers, l));
            lemma_layer_kept(
                before,
                earlier,
                now,
                layers[l],
                stage_inputs(base, count, layers, l),
                base + count + nodes_before(count, layers, l),
                span as nat,
            );
        }
    }
}

} // verus!
