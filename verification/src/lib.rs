//! Style sheet selection and cascade logic for UI entity trees.
pub mod hashing;
pub mod keyed;
pub mod property;
pub mod selector;
pub mod small_vec;
pub mod stylesheet;
pub mod system;
