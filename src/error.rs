use vstd::prelude::*;

verus! {

/// The conditions that stop the pipeline.
#[derive(Debug, Clone, Copy, PartialEq, Eq, Structural)]
pub enum ErrorKind {
    /// The lexer met a character that starts no token.
    UnknownToken,
    /// A run of digits does not fit in an `i32`.
    NumericOverflow,
    /// An operator is the last token.
    MissingOperand,
    /// No expression or statement starts at the cursor token.
    InvalidSyntax,
    /// A binary operation holds a token that is not an operator.
    UnknownOperator,
    /// An intermediate value of an evaluation does not fit in an `i32`.
    ArithmeticOverflow,
}

/// A located diagnostic: what went wrong, where, and the text found there.
#[derive(Debug, PartialEq, Eq)]
pub struct LangError {
    pub kind: ErrorKind,
    pub line: usize,
    pub col: usize,
    pub found: String,
}

/// The mathematical value of a `LangError`.
pub struct ErrorModel {
    pub kind: ErrorKind,
    pub line: int,
    pub col: int,
    pub found: Seq<char>,
}

impl View for LangError {
    type V = ErrorModel;

    open spec fn view(&self) -> ErrorModel {
        ErrorModel { kind: self.kind, line: self.line as int, col: self.col as int, found: self.found@ }
    }
}

} // verus!
