//! The failures of a compilation. Every failure ends the compilation: nothing
//! is repaired, and no part of a result is handed out.

use vstd::prelude::*;

verus! {

/// Why a compilation stopped.
#[derive(Clone, Copy, Debug, PartialEq, Eq, Structural)]
pub enum ErrorKind {
    /// The line is no sequence of tokens, or its tokens take a turn that the
    /// dialect does not know.
    MalformedLine,
    /// The line ends, or goes on with punctuation, before anything has named
    /// the node.
    MissingElementName,
    /// A line is indented under a node that cannot hold children.
    StructuralViolation,
    /// The input has no line with a token on it.
    EmptyInput,
    /// A style line has its `:` but no value behind it.
    UnterminatedDeclaration,
}

/// A failure inside one line: what went wrong, and at which token, counted
/// from zero. A failure at the end of the line counts the tokens of the line.
#[derive(Clone, Copy, Debug, PartialEq, Eq, Structural)]
pub struct LineError {
    pub kind: ErrorKind,
    pub token: usize,
}

/// A failed compilation: what went wrong, on which line of the input (counted
/// from zero, blank lines included), how far that line is indented, and at
/// which of its tokens. A failure that is not that of one line (an empty
/// input) gives 0 for all three, and a failure that is not that of one token
/// (a misplaced line) gives 0 for the token.
#[derive(Clone, Copy, Debug, PartialEq, Eq, Structural)]
pub struct CompileError {
    pub kind: ErrorKind,
    pub line: usize,
    pub level: usize,
    pub token: usize,
}

impl CompileError {
    /// The failure `error` of the line with index `line` and indentation `level`.
    pub open spec fn on_line(error: LineError, line: usize, level: usize) -> CompileError {
        CompileError { kind: error.kind, line, level, token: error.token }
    }
}

} // verus!
