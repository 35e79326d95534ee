//! `regman`: the registry documentation corpus: fragments, anchors and
//! their wildcards, case folding, and rendering.
pub mod fold;
pub mod pattern;
pub mod fragment;
pub mod error;
pub mod scan;
pub mod cmd;
pub mod markdown;
pub mod render;
pub mod corpus;
pub mod query;
pub mod index;
pub mod sound;
pub mod trip;
