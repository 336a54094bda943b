//! The interpreter of templates.

pub mod interpreter;
pub mod laws;
pub mod model;

pub use interpreter::{render, render_bytes, Parser};
pub use model::{Asset, MAX_DEPTH};
