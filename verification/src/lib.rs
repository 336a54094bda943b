//! Renders a document from a template, a data document and pipe directives.
//!
//! [`ron`] reads a data document into a tree of values, [`pipe`] compiles and
//! applies the directives that transform a value, and [`rustache`] interprets a
//! template against the data.

pub mod bytes;
pub mod error;
pub mod pipe;
pub mod ron;
pub mod rustache;
