//! Fixed-step trajectory accumulation for autonomous and non-autonomous
//! ordinary differential equations.
//!
//! The engine is generic over the scalar type and over the state dimension
//! `N`; the arithmetic of one step and the advance of the clock are handed in
//! as closures, so that one verified loop serves every method and every
//! system of equations.
pub mod trajectory;

pub use trajectory::integrate;


