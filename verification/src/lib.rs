//! Route-table normalization: one line of a route table (or a line of
//! framework source that names a route) becomes `METHOD /path` in one
//! canonical spelling, and two routes that a router could not tell apart get
//! the same collision key.

pub mod chars;
pub mod laws;
pub mod route;
pub mod tool;
pub mod unicode;

pub use route::{collision_key, normalize_route, NormalizeError};
