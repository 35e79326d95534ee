//! `reg`: registry addressing, value literals and output layout.
pub mod addr;
pub mod error;
pub mod settings;
pub mod render;
pub mod literal;
pub mod multi;
pub mod listing;
