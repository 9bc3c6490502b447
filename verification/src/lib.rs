//! Two real-time physics simulations: a population of closed, discretised
//! strings that vibrate, self-intersect and split, and a bosonic matrix model
//! of three coupled symmetric matrices.
//!
//! The library is generic over the scalar type in which it computes. It owns
//! the state, the formulas, every index computation, the topology changes and
//! the integration schedules; the embedding program supplies the arithmetic
//! of its number type and a source of uniform random numbers.

pub mod calabi_yau;
pub mod matrix_physics;
pub mod scalar;
pub mod string_loop;
pub mod string_physics;

pub use calabi_yau::CalabiYauMesh;
pub use matrix_physics::MatrixSimulation;
pub use string_physics::StringSimulation;
