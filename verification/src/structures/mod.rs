//! Containers built from maps and items.
pub mod queue;
pub mod vector;
