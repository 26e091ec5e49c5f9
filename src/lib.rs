pub mod arithmetic;
pub mod determinant;
pub mod laws;
pub mod matrix;
pub mod render;

pub use matrix::{Matrix, MatrixError};
