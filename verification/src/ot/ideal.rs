//! Ideal functionalities, for tests.
pub mod cot;
pub mod rot;
