//! Direct solution of dense linear systems by Gaussian elimination, over a
//! single backing buffer addressed through index windows.
pub mod field;
pub mod grid;
pub mod linalg;
pub mod matrix;
pub mod scalar;
pub mod signal;

pub use linalg::gauss_elim::GaussElimination;
pub use matrix::{Matrix, MatrixView};
pub use scalar::Scalar;
pub use signal::{impulse_vector, Impulse};
