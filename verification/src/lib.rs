//! Verified core of the Peios utilities: GPT partition tables, registry
//! addressing and literals, and the regman documentation format.
pub mod bytes;
pub mod part;
pub mod passwd;
pub mod reg;
pub mod regman;
pub mod revstrm;
pub mod text;
