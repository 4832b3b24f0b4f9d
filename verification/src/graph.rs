//! The computation graph: an arena of nodes, each made by one operation
//! from nodes that were made before it.
use crate::number::{float_one, float_zero};
use crate::scalar::Scalar;
use num_traits::Float;
use vstd::prelude::*;
use vstd::std_specs::ops::{add_ensures, mul_ensures};

verus! {

/// The operation that made a node. It is also the node's local derivative
/// rule: what the node adds to the gradients of its producers when the
/// gradient of an output is propagated back through it.
#[derive(Clone, Copy)]
pub enum Op<T> {
    /// Made from a number; no producers, nothing to propagate.
    Leaf,
    /// The sum of two producers.
    Add,
    /// The product of two producers.
    Mul,
    /// One producer raised to a fixed exponent.
    Pow { exponent: T },
    /// e raised to one producer.
    Exp,
    /// The hyperbolic tangent of one producer.
    Tanh,
}

/// A node of the graph.
pub struct Value<T> {
    /// The node's number.
    pub data: T,
    /// The gradient accumulated so far.
    pub grad: T,
    /// A name for display.
    pub label: String,
    /// The operation that made the node.
    pub op: Op<T>,
    /// The operands of that operation, as indices into the graph.
    pub producers: Vec<usize>,
}

/// The content of a [`Value`] as a mathematical value.
pub struct Node<T> {
    pub data: T,
    pub grad: T,
    pub label: Seq<char>,
    pub op: Op<T>,
    pub producers: Seq<usize>,
}

impl<T> View for Value<T> {
    type V = Node<T>;

    open spec fn view(&self) -> Node<T> {
        Node {
            data: self.data,
            grad: self.grad,
            label: self.label@,
            op: self.op,
            producers: self.producers@,
        }
    }
}

impl<T: Float> Value<T> {
    /// A leaf that holds `data`, with an empty label. Its gradient is what
    /// `num_traits` gives as the zero of `T`.
    pub fn new(data: T) -> (value: Value<T>)
        ensures
            value@.data == data,
            value@.label == Seq::<char>::empty(),
            value@.op == Op::<T>::Leaf,
            value@.producers == Seq::<usize>::empty(),
    {
        Value { data, grad: float_zero(), label: String::new(), op: Op::Leaf, producers: Vec::new() }
    }
}

/// The number of operands that an operation takes.
pub open spec fn arity<T>(op: Op<T>) -> nat {
    match op {
        Op::Leaf => 0,
        Op::Add => 2,
        Op::Mul => 2,
        Op::Pow { .. } => 1,
        Op::Exp => 1,
        Op::Tanh => 1,
    }
}

/// `node` can stand at index `at`: it has as many producers as its
/// operation takes, and each of them stands before it.
pub open spec fn fits<T>(node: Node<T>, at: int) -> bool {
    &&& node.producers.len() == arity(node.op)
    &&& forall|k: int| 0 <= k < node.producers.len() ==> #[trigger] node.producers[k] < at
}

/// Every node stands after its producers, so the producer relation has no
/// cycle.
pub open spec fn well_formed<T>(nodes: Seq<Node<T>>) -> bool {
    forall|i: int| 0 <= i < nodes.len() ==> fits(#[trigger] nodes[i], i)
}

/// `after` is `before` with only gradients changed.
pub open spec fn same_but_grads<T>(before: Seq<Node<T>>, after: Seq<Node<T>>) -> bool {
    &&& after.len() == before.len()
    &&& forall|i: int|
        0 <= i < before.len() ==> #[trigger] after[i] == (Node { grad: after[i].grad, ..before[i] })
}

/// The number of node `i` is an outcome of its operation on the numbers that
/// its producers hold in `nodes`. For a sum and a product this is vstd's
/// relation for the operator. Of a power, an exponential and a hyperbolic
/// tangent nothing can be said, and of a leaf there is nothing to say.
pub open spec fn computed<T>(nodes: Seq<Node<T>>, i: int) -> bool {
    let node = nodes[i];
    match node.op {
        Op::Add => add_ensures::<T>(
            nodes[node.producers[0] as int].data,
            nodes[node.producers[1] as int].data,
            node.data,
        ),
        Op::Mul => mul_ensures::<T>(
            nodes[node.producers[0] as int].data,
            nodes[node.producers[1] as int].data,
            node.data,
        ),
        _ => true,
    }
}

/// An arena of nodes. A node is known by its index, which never changes;
/// nodes are only ever added.
pub struct Graph<T> {
    /// The nodes, in the order in which they were made.
    pub nodes: Vec<Value<T>>,
    /// The additive identity of `T`: the gradient of a new node.
    pub zero: T,
    /// The multiplicative identity of `T`: the gradient of an output with
    /// respect to itself.
    pub one: T,
}

impl<T> View for Graph<T> {
    type V = Seq<Node<T>>;

    open spec fn view(&self) -> Seq<Node<T>> {
        Seq::new(self.nodes@.len(), |i: int| self.nodes@[i]@)
    }
}

impl<T> Graph<T> {
    /// The graph's invariant.
    pub open spec fn wf(&self) -> bool {
        well_formed(self@)
    }

    /// `scalar` names a node of this graph.
    pub open spec fn holds(&self, scalar: Scalar) -> bool {
        scalar.id < self@.len()
    }

    /// `after` is this graph with `count` nodes added at the end.
    pub open spec fn grown_by(&self, after: &Graph<T>, count: nat) -> bool {
        &&& after.zero == self.zero
        &&& after.one == self.one
        &&& after@.len() == self@.len() + count
        &&& after@.subrange(0, self@.len() as int) == self@
    }

    /// `after` is this graph with only gradients changed.
    pub open spec fn regraded(&self, after: &Graph<T>) -> bool {
        &&& after.zero == self.zero
        &&& after.one == self.one
        &&& same_but_grads(self@, after@)
    }
}

/// Growth composes: nodes added to a graph that had nodes added are nodes
/// added to the first graph.
pub proof fn lemma_grown_twice<T>(
    first: Graph<T>,
    second: Graph<T>,
    third: Graph<T>,
    count: nat,
    more: nat,
)
    requires
        first.grown_by(&second, count),
        second.grown_by(&third, more),
    ensures
        first.grown_by(&third, count + more),
        forall|i: int| 0 <= i < second@.len() ==> third@[i] == second@[i],
        forall|i: int| 0 <= i < first@.len() ==> third@[i] == first@[i],
{
    assert forall|i: int| 0 <= i < second@.len() implies third@[i] == second@[i] by {
        assert(third@.subrange(0, second@.len() as int)[i] == second@[i]);
    }
    assert forall|i: int| 0 <= i < first@.len() implies third@[i] == first@[i] by {
        assert(second@.subrange(0, first@.len() as int)[i] == first@[i]);
    }
    assert(third@.subrange(0, first@.len() as int) =~= first@);
}

impl<T: Float> Graph<T> {
    /// An empty graph. Its two constants are what `num_traits` gives as the
    /// zero and the one of `T`.
    pub fn new() -> (graph: Graph<T>)
        ensures
            graph@ == Seq::<Node<T>>::empty(),
            graph.wf(),
    {
        let graph = Graph { nodes: Vec::new(), zero: float_zero(), one: float_one() };
        assert(graph@ =~= Seq::<Node<T>>::empty());
        graph
    }

    /// The number of nodes.
    pub fn len(&self) -> (count: usize)
        ensures
            count == self@.len(),
    {
        self.nodes.len()
    }

    /// Whether `scalar` names a node of this graph.
    pub fn contains(&self, scalar: Scalar) -> (held: bool)
        ensures
            held == self.holds(scalar),
    {
        scalar.id < self.nodes.len()
    }

    /// Whether every one of `scalars` names a node of this graph.
    pub fn contains_all(&self, scalars: &Vec<Scalar>) -> (held: bool)
        ensures
            held == (forall|k: int| 0 <= k < scalars@.len() ==> self.holds(#[trigger] scalars@[k])),
    {
        let mut k: usize = 0;
        while k < scalars.len()
            invariant
                k <= scalars@.len(),
                forall|j: int| 0 <= j < k ==> self.holds(#[trigger] scalars@[j]),
            decreases scalars@.len() - k,
        {
            if scalars[k].id >= self.nodes.len() {
                assert(!self.holds(scalars@[k as int]));
                return false;
            }
            k += 1;
        }
        true
    }

    /// Whether the graph's invariant holds: whether every node has as many
    /// producers as its operation takes, all of them before it.
    pub fn is_well_formed(&self) -> (ok: bool)
        ensures
            ok == self.wf(),
    {
        let mut i: usize = 0;
        while i < self.nodes.len()
            invariant
                i <= self@.len(),
                forall|j: int| 0 <= j < i ==> fits(#[trigger] self@[j], j),
            decreases self@.len() - i,
        {
            let node = &self.nodes[i];
            let count: usize = match node.op {
                Op::Leaf => 0,
                Op::Add => 2,
                Op::Mul => 2,
                Op::Pow { .. } => 1,
                Op::Exp => 1,
                Op::Tanh => 1,
            };
            if node.producers.len() != count {
                assert(!fits(self@[i as int], i as int));
                return false;
            }
            let mut k: usize = 0;
            while k < count
                invariant
                    k <= count,
                    i < self@.len(),
                    count == self@[i as int].producers.len(),
                    node == self.nodes@[i as int],
                    forall|l: int| 0 <= l < k ==> #[trigger] self@[i as int].producers[l] < i,
                decreases count - k,
            {
                if node.producers[k] >= i {
                    assert(!(self@[i as int].producers[k as int] < i));
                    assert(!fits(self@[i as int], i as int));
                    return false;
                }
                k += 1;
            }
            assert(fits(self@[i as int], i as int));
            i += 1;
        }
        true
    }

    /// Adds `value` as the last node and returns its handle.
    pub fn push(&mut self, value: Value<T>) -> (scalar: Scalar)
        requires
            old(self).wf(),
            fits(value@, old(self)@.len() as int),
        ensures
            final(self)@ == old(self)@.push(value@),
            old(self).grown_by(final(self), 1),
            scalar.id == old(self)@.len(),
            final(self).wf(),
    {
        let id = self.nodes.len();
        self.nodes.push(value);
        assert(self@ =~= old(self)@.push(value@));
        assert(self@.subrange(0, old(self)@.len() as int) =~= old(self)@);
        Scalar { id }
    }
}

} // verus!
