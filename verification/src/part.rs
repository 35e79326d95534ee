//! `part`: GPT partition tables as values.
pub mod device;
pub mod entry;
pub mod error;
pub mod gpt;
pub mod guid;
pub mod header;
pub mod label;
pub mod mbr;
pub mod size;
pub mod types;
pub mod report;
pub mod inventory;
pub mod guard;
pub mod outcome;
