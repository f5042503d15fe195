//! Update services: an in-memory one and the service side of a framed serial link.
pub mod memory;
pub mod serial;

pub use memory::InMemory;
pub use serial::SerialError;
