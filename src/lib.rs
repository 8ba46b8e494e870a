//! A fully connected feed-forward neural network trained by backpropagation
//! with per-example gradient steps. The library fixes the shapes, the order
//! of every operation and when a call is refused; the number type it computes
//! with is supplied through `scalar::Scalar`.

pub mod activations;
pub mod layers;
pub mod matrix;
pub mod network;
pub mod scalar;
