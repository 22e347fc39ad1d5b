//! k-nearest-neighbour digit recognition over IDX (MNIST) data, with the
//! command-line and HTTP front-end logic of the programs built on it.

pub mod idx;
pub mod knn;
pub mod numbers;
pub mod cli;
pub mod http;
