//! Generators of Bitcoin scripts for big-integer and prime-field arithmetic,
//! with a model of how the generated scripts run.
pub mod script;
pub mod pseudo;
pub mod routines;
pub mod bigint;
pub mod biguint;
pub mod bn254;
pub mod stack;
pub mod windows;
