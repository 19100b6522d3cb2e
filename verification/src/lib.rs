//! Poseidon2 as an algebraic intermediate representation: the row layout,
//! the witness generator that fills it, and the constraints that accept
//! exactly the rows the generator produces.

pub mod agreement;
pub mod air;
pub mod carrier;
pub mod columns;
pub mod constraints;
pub mod error;
pub mod expr;
pub mod field;
pub mod generation;
pub mod injective;
pub mod layout;
pub mod linear;
pub mod matrix;
pub mod permutation;
pub mod sbox;
