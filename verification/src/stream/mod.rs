//! Streaming a scene: which leaves are shown at which level, what is loaded for
//! that, and where it goes.

pub mod allocator;
pub mod budget;
pub mod composite;
pub mod plan;
pub mod runtime;
pub mod settings;
pub mod units;
