//! Linear systems.
pub mod elimination;
pub mod exact;
pub mod gauss_elim;
pub mod laws;
