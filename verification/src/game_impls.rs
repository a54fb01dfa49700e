//! The engines. Each holds one generation and computes the next in its own
//! way; all of them meet the contract of [`crate::Gol`].

pub mod compute;
pub mod cpu;
pub mod cpu_ndarray;
pub mod partition;
