//! Interactive exploration of a graph whose node labels carry markup.
//!
//! The crate turns a graph description into a forest of named nodes and an
//! edge list, and maintains a mutable view of the nodes that are currently
//! shown.

pub mod api;
pub mod api_model;
pub mod collections;
pub mod dot_parse;
pub mod error;
pub mod index;
pub mod markup;
pub mod markup_tree;
pub mod model;
pub mod naming;
pub mod prune;
pub mod text;
pub mod traverse;
