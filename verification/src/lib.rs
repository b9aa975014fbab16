//! Verified core of the GUPS (Giga Updates Per Second) benchmark.
//!
//! The functions here compute; timing, input and output and the transport
//! between processes belong to the program that calls them.
pub mod bits;
pub mod cli;
pub mod comm;
pub mod environment;
pub mod history;
pub mod oob;
pub mod phase;
pub mod plan;
pub mod register;
pub mod rng;
pub mod routing;
pub mod sizing;
pub mod table;
pub mod text;
pub mod verify;
