//! The data notation: its values, its lexer and its parser.

pub mod laws;
pub mod lexer;
pub mod parser;
pub mod value;
pub mod writer;

pub use lexer::{Lexer, Token};
pub use parser::{parse, parse_bytes, Parser};
pub use value::{Tree, Value};
pub use writer::serialize;
