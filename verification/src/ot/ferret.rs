//! Ferret: correlated oblivious transfer extension from learning parity with
//! noise.
pub mod config;
pub mod cuckoo;
pub mod law;
pub mod lpn;
pub mod mpcot;
pub mod msgs;
pub mod queue;
pub mod receiver;
pub mod run;
pub mod sender;
