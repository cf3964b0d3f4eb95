pub mod scope;
pub mod support;
pub mod generator;
pub mod items;
