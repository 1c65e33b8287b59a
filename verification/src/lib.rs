//! A shareable stream core: one source of items read by many independent consumers.

mod count;
pub mod hub;
pub mod stats;
