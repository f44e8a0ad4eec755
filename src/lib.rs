//! A procedural text generator: a line-oriented definition language for
//! words, tag hierarchies and templates, an index over tags, and random
//! selection and rendering against that index.
pub mod dictionary;
pub mod index;
pub mod people;
pub mod query;
pub mod random;
pub mod render;
pub mod scan;
pub mod tags;
pub mod template;
pub mod word;
