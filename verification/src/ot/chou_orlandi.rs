//! Oblivious transfer from Diffie-Hellman, by Chou and Orlandi.
pub mod curve;
pub mod receiver;
