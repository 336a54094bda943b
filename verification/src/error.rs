//! The failures that reading and rendering can end in.

use vstd::prelude::*;

verus! {

/// Why a document, a directive or a template was refused.
#[derive(Debug, Clone, Copy, PartialEq, Eq, Structural)]
pub enum ErrorKind {
    /// A byte that cannot stand where it stands, or text that is no UTF-8.
    Lex,
    /// The input breaks the grammar, or ends inside a directive or a block.
    Syntax,
    /// A path names nothing in any scope, or a key that an object lacks.
    UndefinedReference,
    /// A value is there but has the wrong shape for what is asked of it.
    ShapeMismatch,
    /// No pipe has the name, or the pipe cannot take the value.
    Pipe,
    /// An operand of a numeric comparison is no unsigned decimal number.
    NumericParse,
}

/// A failure with the offset in the source text at which it was found.
#[derive(Debug, Clone, Copy, PartialEq, Eq, Structural)]
pub struct Error {
    pub kind: ErrorKind,
    pub position: usize,
}

impl ErrorKind {
    /// A short name for the kind, for messages.
    pub fn name(&self) -> (name: &'static str)
        ensures
            name@ == match self {
                ErrorKind::Lex => "lex error"@,
                ErrorKind::Syntax => "syntax error"@,
                ErrorKind::UndefinedReference => "undefined reference"@,
                ErrorKind::ShapeMismatch => "shape mismatch"@,
                ErrorKind::Pipe => "pipe error"@,
                ErrorKind::NumericParse => "numeric parse error"@,
            },
    {
        match self {
            ErrorKind::Lex => "lex error",
            ErrorKind::Syntax => "syntax error",
            ErrorKind::UndefinedReference => "undefined reference",
            ErrorKind::ShapeMismatch => "shape mismatch",
            ErrorKind::Pipe => "pipe error",
            ErrorKind::NumericParse => "numeric parse error",
        }
    }
}

} // verus!
