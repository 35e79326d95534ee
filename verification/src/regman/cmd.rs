//! The text work behind regman's subcommands.
pub mod fmt;
pub mod lint;
pub mod show;
