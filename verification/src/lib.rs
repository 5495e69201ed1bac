//! Traversal and measurement of parsed HTML documents.
//!
//! A document is held in [`model::Dom`], an arena of nodes addressed by index.
//! On top of it stand a tag query, four text aggregation policies, attribute
//! lookup and update, and the rewriting of image sources against a base URL.
//! [`dom`] gathers the operations under one path.

pub mod attr;
pub mod dom;
pub mod factory;
pub mod img;
pub mod model;
pub mod parse;
pub mod query;
pub mod strings;
pub mod text;
