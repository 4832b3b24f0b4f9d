//! The order in which gradients are propagated: a depth-first walk from an
//! output along producer edges, each node recorded after its producers.
use crate::graph::{fits, well_formed, Graph, Node};
use crate::scalar::Scalar;
use std::collections::HashSet;
use vstd::prelude::*;
use vstd::std_specs::hash::*;

verus! {

/// The record after a walk from `node`, when `seen` was recorded before it.
/// A node that is already recorded is left alone. Otherwise its producers
/// are walked from, first to last, and then the node itself is recorded.
pub open spec fn visit<T>(nodes: Seq<Node<T>>, seen: Seq<usize>, node: usize) -> Seq<usize>
    decreases node, 1nat, 0nat,
{
    if seen.contains(node) {
        seen
    } else {
        visit_from(nodes, seen, node, 0).push(node)
    }
}

/// The record after walks from the producers of `node`, from the `k`-th on,
/// when `seen` was recorded before them.
pub open spec fn visit_from<T>(nodes: Seq<Node<T>>, seen: Seq<usize>, node: usize, k: nat) -> Seq<
    usize,
>
    decreases node, 0nat, nodes[node as int].producers.len() - k,
{
    let producers = nodes[node as int].producers;
    if k < producers.len() && producers[k as int] < node {
        visit_from(nodes, visit(nodes, seen, producers[k as int]), node, k + 1)
    } else {
        seen
    }
}

/// The nodes that `root` depends on, `root` included, each once, every node
/// after all of its producers.
pub open spec fn topological_order<T>(nodes: Seq<Node<T>>, root: usize) -> Seq<usize> {
    visit(nodes, Seq::empty(), root)
}

/// `to` is `from`, or a producer of `from`, or a producer of one, and so on.
pub open spec fn reaches<T>(nodes: Seq<Node<T>>, from: int, to: int) -> bool
    decreases from,
{
    from == to || (0 <= from < nodes.len() && exists|k: int|
        0 <= k < nodes[from].producers.len() && #[trigger] nodes[from].producers[k] < from
            && reaches(nodes, nodes[from].producers[k] as int, to))
}

/// `node` stands in `order` before position `i`.
pub open spec fn stands_before(order: Seq<usize>, i: int, node: usize) -> bool {
    exists|j: int| 0 <= j < i && #[trigger] order[j] == node
}

/// Every producer of a node of `order` stands in `order` before that node.
pub open spec fn producers_first<T>(nodes: Seq<Node<T>>, order: Seq<usize>) -> bool {
    forall|i: int, k: int|
        0 <= i < order.len() && 0 <= k < nodes[order[i] as int].producers.len() ==> #[trigger] stands_before(
            order,
            i,
            nodes[order[i] as int].producers[k],
        )
}

/// Wherever a node of `order` and one of its producers stand in `order`, the
/// producer stands first. Walked backwards, `order` therefore meets a node
/// only after every node that it is a producer of.
pub open spec fn consumers_last<T>(nodes: Seq<Node<T>>, order: Seq<usize>) -> bool {
    forall|i: int, j: int, k: int|
        #![trigger order[j], nodes[order[i] as int].producers[k]]
        0 <= i < order.len() && 0 <= j < order.len() && 0 <= k < nodes[order[i] as int].producers.len()
            && order[j] == nodes[order[i] as int].producers[k] ==> j < i
}

/// What every record of a walk satisfies: it names nodes of the graph, none
/// twice, each after its producers.
pub open spec fn ordered<T>(nodes: Seq<Node<T>>, order: Seq<usize>) -> bool {
    &&& forall|i: int| 0 <= i < order.len() ==> #[trigger] order[i] < nodes.len()
    &&& order.no_duplicates()
    &&& producers_first(nodes, order)
}

/// `longer` starts with `shorter`.
pub open spec fn starts_with(longer: Seq<usize>, shorter: Seq<usize>) -> bool {
    &&& shorter.len() <= longer.len()
    &&& forall|i: int| 0 <= i < shorter.len() ==> #[trigger] longer[i] == shorter[i]
}

/// A node depends only on itself and on nodes that stand before it.
pub proof fn lemma_reaches_below<T>(nodes: Seq<Node<T>>, from: int, to: int)
    requires
        reaches(nodes, from, to),
    ensures
        to <= from,
    decreases from,
{
    if from != to {
        let k = choose|k: int|
            0 <= k < nodes[from].producers.len() && #[trigger] nodes[from].producers[k] < from
                && reaches(nodes, nodes[from].producers[k] as int, to);
        lemma_reaches_below(nodes, nodes[from].producers[k] as int, to);
    }
}

/// The producer relation has no cycle: no node is among the nodes that one
/// of its producers depends on.
pub proof fn lemma_no_cycle<T>(nodes: Seq<Node<T>>, node: int, k: int)
    requires
        well_formed(nodes),
        0 <= node < nodes.len(),
        0 <= k < nodes[node].producers.len(),
    ensures
        !reaches(nodes, nodes[node].producers[k] as int, node),
{
    assert(fits(nodes[node], node));
    if reaches(nodes, nodes[node].producers[k] as int, node) {
        lemma_reaches_below(nodes, nodes[node].producers[k] as int, node);
    }
}

/// If `from` depends on `middle`, it depends on every producer of `middle`.
pub proof fn lemma_reaches_producer<T>(nodes: Seq<Node<T>>, from: int, middle: int, k: int)
    requires
        reaches(nodes, from, middle),
        0 <= middle < nodes.len(),
        0 <= k < nodes[middle].producers.len(),
        nodes[middle].producers[k] < middle,
    ensures
        reaches(nodes, from, nodes[middle].producers[k] as int),
    decreases from,
{
    let to = nodes[middle].producers[k] as int;
    if from == middle {
        assert(reaches(nodes, to, to));
    } else {
        let j = choose|j: int|
            0 <= j < nodes[from].producers.len() && #[trigger] nodes[from].producers[j] < from
                && reaches(nodes, nodes[from].producers[j] as int, middle);
        lemma_reaches_producer(nodes, nodes[from].producers[j] as int, middle, k);
    }
}

proof fn lemma_visit<T>(nodes: Seq<Node<T>>, seen: Seq<usize>, node: usize)
    requires
        well_formed(nodes),
        node < nodes.len(),
        ordered(nodes, seen),
    ensures
        ordered(nodes, visit(nodes, seen, node)),
        starts_with(visit(nodes, seen, node), seen),
        visit(nodes, seen, node).contains(node),
        forall|x: usize| #[trigger]
            visit(nodes, seen, node).contains(x) ==> seen.contains(x) || reaches(
                nodes,
                node as int,
                x as int,
            ),
        !seen.contains(node) ==> visit(nodes, seen, node).last() == node,
    decreases node, 1nat, 0nat,
{
    if !seen.contains(node) {
        lemma_visit_from(nodes, seen, node, 0);
        let before = visit_from(nodes, seen, node, 0);
        let after = before.push(node);
        assert(after == visit(nodes, seen, node));
        assert(!before.contains(node));
        assert(after.no_duplicates());
        assert(producers_first(nodes, after)) by {
            assert forall|i: int, k: int|
                0 <= i < after.len() && 0 <= k < nodes[after[i] as int].producers.len() implies #[trigger] stands_before(
                after,
                i,
                nodes[after[i] as int].producers[k],
            ) by {
                if i < before.len() {
                    assert(after[i] == before[i]);
                    assert(stands_before(before, i, nodes[before[i] as int].producers[k]));
                    let j = choose|j: int|
                        0 <= j < i && before[j] == nodes[before[i] as int].producers[k];
                    assert(after[j] == before[j]);
                } else {
                    let producer = nodes[node as int].producers[k];
                    assert(before.contains(producer));
                    let j = choose|j: int| 0 <= j < before.len() && before[j] == producer;
                    assert(after[j] == before[j]);
                }
            }
        }
        assert(after[before.len() as int] == node);
        assert forall|x: usize| #[trigger] after.contains(x) implies seen.contains(x) || reaches(
            nodes,
            node as int,
            x as int,
        ) by {
            let i = choose|i: int| 0 <= i < after.len() && after[i] == x;
            if i < before.len() {
                assert(before[i] == x);
                assert(before.contains(x));
            }
        }
    }
}

proof fn lemma_visit_from<T>(nodes: Seq<Node<T>>, seen: Seq<usize>, node: usize, k: nat)
    requires
        well_formed(nodes),
        node < nodes.len(),
        ordered(nodes, seen),
        k <= nodes[node as int].producers.len(),
    ensures
        ordered(nodes, visit_from(nodes, seen, node, k)),
        starts_with(visit_from(nodes, seen, node, k), seen),
        forall|j: int|
            k <= j < nodes[node as int].producers.len() ==> visit_from(nodes, seen, node, k).contains(
                #[trigger] nodes[node as int].producers[j],
            ),
        forall|x: usize| #[trigger]
            visit_from(nodes, seen, node, k).contains(x) ==> seen.contains(x) || (x < node
                && reaches(nodes, node as int, x as int)),
    decreases node, 0nat, nodes[node as int].producers.len() - k,
{
    let producers = nodes[node as int].producers;
    assert(fits(nodes[node as int], node as int));
    if k < producers.len() {
        let producer = producers[k as int];
        assert(producer < node);
        lemma_visit(nodes, seen, producer);
        let middle = visit(nodes, seen, producer);
        lemma_visit_from(nodes, middle, node, k + 1);
        let after = visit_from(nodes, middle, node, k + 1);
        assert(after == visit_from(nodes, seen, node, k));
        assert forall|j: int| k <= j < producers.len() implies after.contains(
            #[trigger] producers[j],
        ) by {
            if j == k {
                let i = choose|i: int| 0 <= i < middle.len() && middle[i] == producer;
                assert(after[i] == producer);
            }
        }
        assert forall|x: usize| #[trigger] after.contains(x) implies seen.contains(x) || (x < node
            && reaches(nodes, node as int, x as int)) by {
            if middle.contains(x) && !seen.contains(x) {
                assert(reaches(nodes, producer as int, x as int));
                lemma_reaches_below(nodes, producer as int, x as int);
                assert(nodes[node as int].producers[k as int] < node);
            }
        }
    }
}

proof fn lemma_closed<T>(nodes: Seq<Node<T>>, order: Seq<usize>, from: usize, to: int)
    requires
        producers_first(nodes, order),
        order.contains(from),
        reaches(nodes, from as int, to),
    ensures
        0 <= to <= usize::MAX,
        order.contains(to as usize),
    decreases from,
{
    if from as int != to {
        let k = choose|k: int|
            0 <= k < nodes[from as int].producers.len() && #[trigger] nodes[from as int].producers[k]
                < from && reaches(nodes, nodes[from as int].producers[k] as int, to);
        let i = choose|i: int| 0 <= i < order.len() && order[i] == from;
        let producer = nodes[order[i] as int].producers[k];
        assert(stands_before(order, i, producer));
        let j = choose|j: int| 0 <= j < i && order[j] == producer;
        assert(order.contains(producer));
        lemma_closed(nodes, order, producer, to);
    }
}

proof fn lemma_visit_reads_producers<T>(
    first: Seq<Node<T>>,
    second: Seq<Node<T>>,
    seen: Seq<usize>,
    node: usize,
)
    requires
        first.len() == second.len(),
        node < first.len(),
        forall|i: int|
            0 <= i < first.len() ==> (#[trigger] first[i]).producers == second[i].producers,
    ensures
        visit(first, seen, node) == visit(second, seen, node),
    decreases node, 1nat, 0nat,
{
    if !seen.contains(node) {
        lemma_visit_from_reads_producers(first, second, seen, node, 0);
    }
}

proof fn lemma_visit_from_reads_producers<T>(
    first: Seq<Node<T>>,
    second: Seq<Node<T>>,
    seen: Seq<usize>,
    node: usize,
    k: nat,
)
    requires
        first.len() == second.len(),
        node < first.len(),
        forall|i: int|
            0 <= i < first.len() ==> (#[trigger] first[i]).producers == second[i].producers,
    ensures
        visit_from(first, seen, node, k) == visit_from(second, seen, node, k),
    decreases node, 0nat, first[node as int].producers.len() - k,
{
    let producers = first[node as int].producers;
    assert(producers == second[node as int].producers);
    if k < producers.len() && producers[k as int] < node {
        lemma_visit_reads_producers(first, second, seen, producers[k as int]);
        lemma_visit_from_reads_producers(
            first,
            second,
            visit(first, seen, producers[k as int]),
            node,
            k + 1,
        );
    }
}

/// The order of propagation depends on the producers of the nodes alone:
/// two graphs whose nodes have the same producers give the same order.
pub proof fn lemma_order_reads_producers<T>(first: Seq<Node<T>>, second: Seq<Node<T>>, root: usize)
    requires
        first.len() == second.len(),
        root < first.len(),
        forall|i: int|
            0 <= i < first.len() ==> (#[trigger] first[i]).producers == second[i].producers,
    ensures
        topological_order(first, root) == topological_order(second, root),
{
    lemma_visit_reads_producers(first, second, Seq::<usize>::empty(), root);
}

/// The order of propagation is a topological order of what the output
/// depends on: it names no node twice, every node stands after all of its
/// producers, and the output itself stands last. Walked backwards, every
/// node is therefore met only after all the nodes that it is a producer of.
pub proof fn lemma_order_is_topological<T>(nodes: Seq<Node<T>>, root: usize)
    requires
        well_formed(nodes),
        root < nodes.len(),
    ensures
        topological_order(nodes, root).no_duplicates(),
        producers_first(nodes, topological_order(nodes, root)),
        consumers_last(nodes, topological_order(nodes, root)),
        topological_order(nodes, root).len() > 0,
        topological_order(nodes, root).last() == root,
        forall|i: int|
            0 <= i < topological_order(nodes, root).len() ==> #[trigger] topological_order(
                nodes,
                root,
            )[i] < nodes.len(),
{
    lemma_visit(nodes, Seq::<usize>::empty(), root);
    let order = topological_order(nodes, root);
    assert forall|i: int, j: int, k: int|
        #![trigger order[j], nodes[order[i] as int].producers[k]]
        0 <= i < order.len() && 0 <= j < order.len() && 0 <= k < nodes[order[i] as int].producers.len()
            && order[j] == nodes[order[i] as int].producers[k] implies j < i by {
        let producer = nodes[order[i] as int].producers[k];
        assert(stands_before(order, i, producer));
        let first = choose|first: int| 0 <= first < i && #[trigger] order[first] == producer;
        assert(order[first] == order[j]);
    }
}

/// The order of propagation names exactly the nodes that the output
/// depends on: the output, its producers, their producers, and so on.
pub proof fn lemma_order_is_what_root_reaches<T>(nodes: Seq<Node<T>>, root: usize, node: usize)
    requires
        well_formed(nodes),
        root < nodes.len(),
    ensures
        topological_order(nodes, root).contains(node) <==> reaches(nodes, root as int, node as int),
{
    lemma_visit(nodes, Seq::<usize>::empty(), root);
    if reaches(nodes, root as int, node as int) {
        lemma_closed(nodes, topological_order(nodes, root), root, node as int);
    }
}

impl<T> Graph<T> {
    fn visit_node(&self, order: &mut Vec<usize>, visited: &mut HashSet<usize>, node: usize)
        requires
            self.wf(),
            node < self@.len(),
            forall|i: usize| i <= node ==> (old(visited)@.contains(i) <==> old(order)@.contains(i)),
        ensures
            final(order)@ == visit(self@, old(order)@, node),
            forall|i: usize| i <= node ==> (final(visited)@.contains(i) <==> final(order)@.contains(i)),
            forall|i: usize| i > node ==> (final(visited)@.contains(i) <==> old(visited)@.contains(i)),
            forall|i: usize| i > node ==> (final(order)@.contains(i) <==> old(order)@.contains(i)),
        decreases node,
    {
        broadcast use group_hash_axioms;

        if !visited.contains(&node) {
            visited.insert(node);
            assert(fits(self@[node as int], node as int));
            let count = self.nodes[node].producers.len();
            let mut k: usize = 0;
            while k < count
                invariant
                    self.wf(),
                    node < self@.len(),
                    k <= count,
                    count == self@[node as int].producers.len(),
                    visit_from(self@, order@, node, k as nat) == visit_from(
                        self@,
                        old(order)@,
                        node,
                        0,
                    ),
                    forall|i: usize| i < node ==> (visited@.contains(i) <==> order@.contains(i)),
                    visited@.contains(node),
                    !order@.contains(node),
                    forall|i: usize| i > node ==> (visited@.contains(i) <==> old(visited)@.contains(i)),
                    forall|i: usize| i > node ==> (order@.contains(i) <==> old(order)@.contains(i)),
                decreases count - k,
            {
                let producer = self.nodes[node].producers[k];
                assert(producer == self@[node as int].producers[k as int]);
                self.visit_node(order, visited, producer);
                k += 1;
            }
            let ghost before = order@;
            order.push(node);
            assert forall|i: usize| order@.contains(i) <==> before.contains(i) || i == node by {
                if before.contains(i) {
                    let j = choose|j: int| 0 <= j < before.len() && before[j] == i;
                    assert(order@[j] == i);
                }
                if i == node {
                    assert(order@[before.len() as int] == i);
                }
            }
        }
    }

    /// The order in which [`Scalar::back_prop`] walks the graph, backwards:
    /// every node that `root` depends on, once, after all of its producers,
    /// `root` last.
    pub fn topological_order(&self, root: Scalar) -> (order: Vec<usize>)
        requires
            self.wf(),
            self.holds(root),
        ensures
            order@ == topological_order(self@, root.id),
    {
        let mut order: Vec<usize> = Vec::new();
        let mut visited: HashSet<usize> = HashSet::new();
        self.visit_node(&mut order, &mut visited, root.id);
        order
    }
}

} // verus!
