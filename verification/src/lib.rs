//! A small feed-forward neural-network training engine over fixed-point
//! arithmetic: activation functions, dense layers, a mean-squared-error loss,
//! sequential model composition, and stochastic gradient descent with
//! optional momentum.
//!
//! Every value is a signed 64-bit count of fixed-point units; `fx::SCALE`
//! units stand for the real number one. All arithmetic is exact integer
//! arithmetic with explicit truncation toward zero, so every contract below
//! pins the result of a computation down to the unit.

pub mod error;
pub mod fx;
pub mod activation;
pub mod laws;
pub mod layer;
pub mod loss;
pub mod matrix;
pub mod model;
pub mod optim;
pub mod sig;
