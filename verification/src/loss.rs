//! The mean-squared-error loss of predictions against ground truths.
use crate::graph::{lemma_grown_twice, well_formed, Graph, Node, Op};
use crate::nn::{all_below, leaf, lemma_derived_stays};
use crate::number::float_add;
use crate::scalar::{constant, derived, Scalar};
use crate::text::{difference_label, negation_label, power_label, shows, sum_label};
use num_traits::Float;
use std::fmt::Display;
use vstd::prelude::*;
use vstd::std_specs::ops::{add_ensures, neg_ensures};

verus! {

/// The number of pairs that a loss is summed over: a prediction without a
/// ground truth, or a ground truth without a prediction, is left out.
pub open spec fn pairs(ground_truths: Seq<Scalar>, predictions: Seq<Scalar>) -> nat {
    if ground_truths.len() <= predictions.len() {
        ground_truths.len()
    } else {
        predictions.len()
    }
}

/// The node that holds the loss summed over the first `i` pairs, in a loss
/// whose nodes start at `base`.
pub open spec fn loss_before(base: int, i: int) -> int {
    base + 5 * i
}

/// The five nodes of the `i`-th term of a loss whose nodes start at `base`:
/// the constant minus one, the negation of the ground truth, the difference
/// of the prediction and the ground truth, its square, and the sum of what
/// was summed before and that square.
#[verifier::opaque]
pub open spec fn squared_error_made<T: Display>(
    nodes: Seq<Node<T>>,
    ground_truths: Seq<Scalar>,
    predictions: Seq<Scalar>,
    base: int,
    i: int,
    zero: T,
    one: T,
    two: T,
) -> bool {
    let start = base + 5 * i + 1;
    let truth = ground_truths[i].id as int;
    let prediction = predictions[i].id as int;
    &&& exists|minus_one: T| #[trigger]
        neg_ensures::<T>(one, minus_one) && constant(nodes, start, minus_one, zero)
    &&& derived(
        nodes,
        start + 1,
        Op::Mul,
        seq![truth as usize, start as usize],
        negation_label(nodes[truth].label),
        zero,
    )
    &&& derived(
        nodes,
        start + 2,
        Op::Add,
        seq![prediction as usize, (start + 1) as usize],
        difference_label(nodes[prediction].label, nodes[truth].label),
        zero,
    )
    &&& exists|text: Seq<char>| #[trigger]
        shows(text, two) && derived(
            nodes,
            start + 3,
            Op::Pow { exponent: two },
            seq![(start + 2) as usize],
            power_label(nodes[start + 2].label, text),
            zero,
        )
    &&& derived(
        nodes,
        start + 4,
        Op::Add,
        seq![loss_before(base, i) as usize, (start + 3) as usize],
        sum_label(nodes[loss_before(base, i)].label, nodes[start + 3].label),
        zero,
    )
}

/// The nodes of a term of a loss stay as they are when more nodes are
/// added.
pub proof fn lemma_squared_error_stays<T: Display>(
    before: Seq<Node<T>>,
    after: Seq<Node<T>>,
    ground_truths: Seq<Scalar>,
    predictions: Seq<Scalar>,
    base: int,
    i: int,
    zero: T,
    one: T,
    two: T,
)
    requires
        well_formed(before),
        0 <= base,
        0 <= i < pairs(ground_truths, predictions),
        base + 5 * i + 5 < before.len() <= after.len(),
        after.subrange(0, before.len() as int) == before,
        squared_error_made(before, ground_truths, predictions, base, i, zero, one, two),
    ensures
        squared_error_made(after, ground_truths, predictions, base, i, zero, one, two),
{
    reveal(squared_error_made);
    let start = base + 5 * i + 1;
    let truth = ground_truths[i].id as int;
    let prediction = predictions[i].id as int;
    assert forall|j: int| 0 <= j < before.len() implies after[j] == before[j] by {
        assert(after.subrange(0, before.len() as int)[j] == after[j]);
    }
    let minus_one = choose|minus_one: T| #[trigger]
        neg_ensures::<T>(one, minus_one) && constant(before, start, minus_one, zero);
    assert(constant(after, start, minus_one, zero));
    lemma_derived_stays(
        before,
        after,
        start + 1,
        Op::Mul,
        seq![truth as usize, start as usize],
        negation_label(before[truth].label),
        zero,
    );
    lemma_derived_stays(
        before,
        after,
        start + 2,
        Op::Add,
        seq![prediction as usize, (start + 1) as usize],
        difference_label(before[prediction].label, before[truth].label),
        zero,
    );
    let text = choose|text: Seq<char>| #[trigger]
        shows(text, two) && derived(
            before,
            start + 3,
            Op::Pow { exponent: two },
            seq![(start + 2) as usize],
            power_label(before[start + 2].label, text),
            zero,
        );
    lemma_derived_stays(
        before,
        after,
        start + 3,
        Op::Pow { exponent: two },
        seq![(start + 2) as usize],
        power_label(before[start + 2].label, text),
        zero,
    );
    lemma_derived_stays(
        before,
        after,
        start + 4,
        Op::Add,
        seq![loss_before(base, i) as usize, (start + 3) as usize],
        sum_label(before[loss_before(base, i)].label, before[start + 3].label),
        zero,
    );
}

/// The sum of the squared differences between each prediction and its
/// ground truth, as a node on top of the nodes of those differences and
/// squares. The sum starts from a new leaf that holds the graph's zero, so
/// the loss of no pairs is that leaf. The exponent of the squares is the
/// graph's one added to itself.
pub fn mse<T: Float + Display>(
    graph: &mut Graph<T>,
    ground_truths: &Vec<Scalar>,
    predictions: &Vec<Scalar>,
) -> (loss: Scalar)
    requires
        old(graph).wf(),
        all_below(ground_truths@, old(graph)@.len()),
        all_below(predictions@, old(graph)@.len()),
    ensures
        old(graph).grown_by(final(graph), 1 + 5 * pairs(ground_truths@, predictions@)),
        final(graph).wf(),
        loss.id == loss_before(
            old(graph)@.len() as int,
            pairs(ground_truths@, predictions@) as int,
        ),
        final(graph)@[old(graph)@.len() as int] == leaf(
            old(graph).zero,
            Seq::<char>::empty(),
            old(graph).zero,
        ),
        exists|two: T| #[trigger]
            add_ensures::<T>(old(graph).one, old(graph).one, two) && forall|i: int|
                0 <= i < pairs(ground_truths@, predictions@) ==> #[trigger] squared_error_made(
                    final(graph)@,
                    ground_truths@,
                    predictions@,
                    old(graph)@.len() as int,
                    i,
                    old(graph).zero,
                    old(graph).one,
                    two,
                ),
{
    let ghost base = graph@.len() as int;
    let zero = graph.zero;
    let two = float_add(graph.one, graph.one);
    let count = if ground_truths.len() <= predictions.len() {
        ground_truths.len()
    } else {
        predictions.len()
    };
    let mut loss = Scalar::new(graph, zero);
    let mut i: usize = 0;
    while i < count
        invariant
            i <= count,
            count == pairs(ground_truths@, predictions@),
            base == old(graph)@.len(),
            zero == old(graph).zero,
            old(graph).wf(),
            all_below(ground_truths@, old(graph)@.len()),
            all_below(predictions@, old(graph)@.len()),
            old(graph).grown_by(graph, 1 + 5 * (i as nat)),
            graph.wf(),
            loss.id == loss_before(base, i as int),
            graph@[base] == leaf(zero, Seq::<char>::empty(), zero),
            forall|j: int|
                0 <= j < i ==> #[trigger] squared_error_made(
                    graph@,
                    ground_truths@,
                    predictions@,
                    base,
                    j,
                    zero,
                    old(graph).one,
                    two,
                ),
        decreases count - i,
    {
        let ghost first = *graph;
        let truth = ground_truths[i];
        let prediction = predictions[i];
        assert(ground_truths@[i as int].id < old(graph)@.len());
        assert(predictions@[i as int].id < old(graph)@.len());
        let difference = prediction.sub(graph, &truth);
        let ghost second = *graph;
        let squared = difference.pow(graph, two);
        let ghost third = *graph;
        loss = loss.add(graph, &squared);
        proof {
            lemma_grown_twice(first, second, third, 3, 1);
            lemma_grown_twice(first, third, *graph, 4, 1);
            lemma_grown_twice(*old(graph), first, *graph, 1 + 5 * (i as nat), 5);
            lemma_grown_twice(second, third, *graph, 1, 1);
            let start = base + 5 * i + 1;
            let minus_one = choose|minus_one: T| #[trigger]
                neg_ensures::<T>(old(graph).one, minus_one) && constant(
                    second@,
                    start,
                    minus_one,
                    zero,
                );
            assert(constant(graph@, start, minus_one, zero));
            lemma_derived_stays(
                second@,
                graph@,
                start + 1,
                Op::Mul,
                seq![truth.id, start as usize],
                negation_label(first@[truth.id as int].label),
                zero,
            );
            lemma_derived_stays(
                second@,
                graph@,
                start + 2,
                Op::Add,
                seq![prediction.id, (start + 1) as usize],
                difference_label(
                    first@[prediction.id as int].label,
                    first@[truth.id as int].label,
                ),
                zero,
            );
            let text = choose|text: Seq<char>| #[trigger]
                shows(text, two) && derived(
                    third@,
                    start + 3,
                    Op::Pow { exponent: two },
                    seq![difference.id],
                    power_label(second@[difference.id as int].label, text),
                    zero,
                );
            lemma_derived_stays(
                third@,
                graph@,
                start + 3,
                Op::Pow { exponent: two },
                seq![difference.id],
                power_label(second@[difference.id as int].label, text),
                zero,
            );
            assert(squared_error_made(
                graph@,
                ground_truths@,
                predictions@,
                base,
                i as int,
                zero,
                old(graph).one,
                two,
            )) by {
                reveal(squared_error_made);
            }
            assert forall|j: int| 0 <= j < i implies #[trigger] squared_error_made(
                graph@,
                ground_truths@,
                predictions@,
                base,
                j,
                zero,
                old(graph).one,
                two,
            ) by {
                lemma_squared_error_stays(
                    first@,
                    graph@,
                    ground_truths@,
                    predictions@,
                    base,
                    j,
                    zero,
                    old(graph).one,
                    two,
                );
            }
        }
        i += 1;
    }
    loss
}

} // verus!
