//! Health tracking for the components of an LLM agent.
//!
//! Each component is recorded under its name with a [`Status`]; a
//! [`HealthRegistry`] answers aggregate questions about all of them.

pub mod laws;
pub mod model;
pub mod order;
pub mod registry;
pub mod status;
pub mod summary;
pub mod text;

pub use registry::HealthRegistry;
pub use status::Status;
pub use summary::Summary;
