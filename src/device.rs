//! Devices: a simulator, and the device side of a framed serial link.
pub mod serial;
pub mod simulator;

pub use simulator::Simulator;
