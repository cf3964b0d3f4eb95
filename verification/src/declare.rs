pub mod defs;
pub mod res;
pub mod error;
pub mod group;
pub mod filter;
pub mod branch;
pub mod graph;
pub mod mir;
