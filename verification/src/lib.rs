//! Reverse-mode automatic differentiation on scalars.
//!
//! A [`Graph`] holds the nodes of a computation. A [`Scalar`] is a handle to
//! one node; every operation on scalars adds a node to the graph, with the
//! operands as its producers. [`Scalar::back_prop`] then computes the
//! gradient of one scalar with respect to every node it was computed from.
//! [`Neuron`], [`Layer`] and [`MultiLayerPerceptron`] build feed-forward
//! networks out of scalars, and [`loss::mse`] measures their outputs
//! against ground truths.
//!
//! The numbers are of any type with `num_traits::Float`. What is proved is
//! the shape of the graph and which operation gives which number; what the
//! operations of the number type return is not.
pub mod backward;
pub mod graph;
pub mod loss;
pub mod nn;
pub mod number;
pub mod order;
pub mod scalar;
pub mod text;

pub use graph::Graph;
pub use graph::Op;
pub use graph::Value;
pub use nn::Layer;
pub use nn::MultiLayerPerceptron;
pub use nn::Neuron;
pub use scalar::Scalar;
