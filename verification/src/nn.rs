//! Neurons, layers and multi-layer perceptrons, built from scalars.
//!
//! These types hold handles to their parameters, which are leaves of a
//! graph. A forward computation adds nodes to that graph and returns handles
//! to the outputs; gradients come from [`Scalar::back_prop`] on what is built
//! from them.
//!
//! The contracts say which nodes a computation adds and where: the nodes of
//! a network are added in a fixed order, so each has an index that can be
//! told from the sizes alone.
pub mod layer;
pub mod neuron;
pub mod perceptron;

pub use layer::Layer;
pub use neuron::Neuron;
pub use perceptron::MultiLayerPerceptron;

use crate::graph::{fits, lemma_grown_twice, well_formed, Graph, Node, Op};
use crate::scalar::{derived, Scalar};
use num_traits::Float;
use vstd::prelude::*;

verus! {

/// A leaf named `label` that holds `data`, with gradient `zero`.
pub open spec fn leaf<T>(data: T, label: Seq<char>, zero: T) -> Node<T> {
    Node { data, grad: zero, label, op: Op::Leaf, producers: Seq::empty() }
}

/// The number of inputs or outputs that a signed count stands for: none
/// where it is negative.
pub open spec fn width(count: i32) -> nat {
    if count < 0 {
        0
    } else {
        count as nat
    }
}

/// The handles to `count` nodes in a row, the first of them at `base`.
pub open spec fn row(base: int, count: nat) -> Seq<Scalar> {
    Seq::new(count, |i: int| Scalar { id: (base + i) as usize })
}

/// Every one of `scalars` is a handle to one of the first `count` nodes.
pub open spec fn all_below(scalars: Seq<Scalar>, count: nat) -> bool {
    forall|k: int| 0 <= k < scalars.len() ==> #[trigger] scalars[k].id < count
}

/// One of `scalars` is a handle to node `i`.
pub open spec fn names(scalars: Seq<Scalar>, i: int) -> bool {
    exists|k: int| 0 <= k < scalars.len() && #[trigger] scalars[k].id == i
}

/// `zero` has been written to the gradient of every node that `scalars`
/// names, and nothing else has changed.
pub open spec fn zeroed<T>(
    before: Seq<Node<T>>,
    scalars: Seq<Scalar>,
    zero: T,
    after: Seq<Node<T>>,
) -> bool {
    &&& after.len() == before.len()
    &&& forall|i: int|
        0 <= i < before.len() ==> #[trigger] after[i] == if names(scalars, i) {
            Node { grad: zero, ..before[i] }
        } else {
            before[i]
        }
}

/// What an operation leaves at the end of a graph stays as it is when more
/// nodes are added.
pub proof fn lemma_derived_stays<T>(
    before: Seq<Node<T>>,
    after: Seq<Node<T>>,
    out: int,
    op: Op<T>,
    producers: Seq<usize>,
    label: Seq<char>,
    zero: T,
)
    requires
        well_formed(before),
        0 <= out < before.len() <= after.len(),
        after.subrange(0, before.len() as int) == before,
        derived(before, out, op, producers, label, zero),
    ensures
        derived(after, out, op, producers, label, zero),
{
    assert(fits(before[out], out));
    assert forall|i: int| 0 <= i < before.len() implies after[i] == before[i] by {
        assert(after.subrange(0, before.len() as int)[i] == after[i]);
    }
    if before[out].producers.len() == 2 {
        assert(before[out].producers[0] < out);
        assert(before[out].producers[1] < out);
    }
}

/// A whole number of slots of one size, `j` of them, ends where the next
/// slot starts, and lies within `k` slots when `j` is below `k`.
pub(crate) proof fn lemma_slots(j: int, k: int, size: int)
    by (nonlinear_arith)
    requires
        0 <= j < k,
        0 <= size,
    ensures
        (j + 1) * size == j * size + size,
        j * size + size <= k * size,
        0 <= j * size,
{
}

/// Adds a leaf with an empty label for each of `numbers`.
pub(crate) fn input_leaves<T: Float>(graph: &mut Graph<T>, numbers: &Vec<T>) -> (scalars: Vec<Scalar>)
    requires
        old(graph).wf(),
    ensures
        old(graph).grown_by(final(graph), numbers@.len()),
        final(graph).wf(),
        scalars@ == row(old(graph)@.len() as int, numbers@.len()),
        forall|i: int|
            0 <= i < numbers@.len() ==> #[trigger] final(graph)@[old(graph)@.len() as int + i]
                == leaf(numbers@[i], Seq::<char>::empty(), old(graph).zero),
{
    let ghost base = graph@.len() as int;
    let mut scalars: Vec<Scalar> = Vec::new();
    let mut i: usize = 0;
    assert(graph@.subrange(0, graph@.len() as int) =~= graph@);
    while i < numbers.len()
        invariant
            i <= numbers@.len(),
            base == old(graph)@.len(),
            old(graph).grown_by(graph, i as nat),
            graph.wf(),
            scalars@.len() == i,
            forall|j: int| 0 <= j < i ==> (#[trigger] scalars@[j]).id == base + j,
            forall|j: int|
                0 <= j < i ==> #[trigger] graph@[base + j] == leaf(
                    numbers@[j],
                    Seq::<char>::empty(),
                    old(graph).zero,
                ),
        decreases numbers@.len() - i,
    {
        let ghost earlier = *graph;
        let scalar = Scalar::new(graph, numbers[i]);
        scalars.push(scalar);
        proof {
            lemma_grown_twice(*old(graph), earlier, *graph, i as nat, 1);
            assert forall|j: int| 0 <= j < i + 1 implies #[trigger] graph@[base + j] == leaf(
                numbers@[j],
                Seq::<char>::empty(),
                old(graph).zero,
            ) by {
                if j < i {
                    assert(graph@[base + j] == earlier@[base + j]);
                }
            }
        }
        i += 1;
    }
    assert(scalars@ =~= row(base, numbers@.len()));
    scalars
}

/// Resets the gradient of every node that `scalars` names.
pub(crate) fn zero_all<T: Float>(graph: &mut Graph<T>, scalars: &Vec<Scalar>)
    requires
        all_below(scalars@, old(graph)@.len()),
    ensures
        zeroed(old(graph)@, scalars@, old(graph).zero, final(graph)@),
        old(graph).regraded(final(graph)),
        old(graph).wf() ==> final(graph).wf(),
{
    let mut i: usize = 0;
    assert forall|x: int| !names(scalars@.subrange(0, 0), x) by {
        if names(scalars@.subrange(0, 0), x) {
            let k = choose|k: int|
                0 <= k < scalars@.subrange(0, 0).len() && #[trigger] scalars@.subrange(0, 0)[k].id
                    == x;
        }
    }
    while i < scalars.len()
        invariant
            i <= scalars@.len(),
            all_below(scalars@, old(graph)@.len()),
            zeroed(old(graph)@, scalars@.subrange(0, i as int), old(graph).zero, graph@),
            old(graph).regraded(graph),
            old(graph).wf() ==> graph.wf(),
        decreases scalars@.len() - i,
    {
        let ghost earlier = graph@;
        let scalar = scalars[i];
        assert(scalars@[i as int].id < old(graph)@.len());
        scalar.zero_grad(graph);
        proof {
            let shorter = scalars@.subrange(0, i as int);
            let longer = scalars@.subrange(0, i + 1);
            assert forall|x: int| names(longer, x) <==> names(shorter, x) || x == scalar.id by {
                if names(shorter, x) {
                    let k = choose|k: int| 0 <= k < shorter.len() && #[trigger] shorter[k].id == x;
                    assert(longer[k].id == x);
                }
                if x == scalar.id {
                    assert(longer[i as int].id == x);
                }
                if names(longer, x) {
                    let k = choose|k: int| 0 <= k < longer.len() && #[trigger] longer[k].id == x;
                    if k < i {
                        assert(shorter[k].id == x);
                    }
                }
            }
            assert forall|x: int| 0 <= x < old(graph)@.len() implies #[trigger] graph@[x] == if names(
                longer,
                x,
            ) {
                Node { grad: old(graph).zero, ..old(graph)@[x] }
            } else {
                old(graph)@[x]
            } by {
                assert(earlier[x] == if names(shorter, x) {
                    Node { grad: old(graph).zero, ..old(graph)@[x] }
                } else {
                    old(graph)@[x]
                });
            }
        }
        i += 1;
    }
    assert(scalars@.subrange(0, i as int) =~= scalars@);
}

} // verus!
