// Errors of the type checker: each names a node of the arena and says what
// kind of error was found there.

use vstd::prelude::*;

verus! {

/// Identifiers a particular kind of syntax error.
#[derive(Clone, Debug)]
pub enum ErrorCode {
    InternalFailure(String),
    /// Expected lhs type, got rhs type
    ExpectedSubtype,
    /// Access unknown variable
    VariableNotFound,
}

/// The mathematical value of an [`ErrorCode`].
pub enum ErrorCodeView {
    InternalFailure(Seq<char>),
    ExpectedSubtype,
    VariableNotFound,
}

impl View for ErrorCode {
    type V = ErrorCodeView;

    open spec fn view(&self) -> ErrorCodeView {
        match self {
            ErrorCode::InternalFailure(msg) => ErrorCodeView::InternalFailure(msg@),
            ErrorCode::ExpectedSubtype => ErrorCodeView::ExpectedSubtype,
            ErrorCode::VariableNotFound => ErrorCodeView::VariableNotFound,
        }
    }
}

impl ErrorCode {
    /// The text shown to the user for an error code.
    pub fn to_string(&self) -> (text: String)
        ensures
            text@ == "expected a type, found another type"@,
    {
        "expected a type, found another type".to_owned()
    }
}

/// Identifies some form of syntax error on a given Abstract Syntax
/// Tree node.  Every error is codified using a specific error code.
#[derive(Clone, Debug)]
pub struct SyntaxError {
    /// Identifies an AST node in the source file.
    pub node: usize,
    /// Identifies the kind of error
    pub errno: ErrorCode,
}

/// The mathematical value of a [`SyntaxError`].
pub struct SyntaxErrorView {
    pub node: usize,
    pub errno: ErrorCodeView,
}

impl View for SyntaxError {
    type V = SyntaxErrorView;

    open spec fn view(&self) -> SyntaxErrorView {
        SyntaxErrorView { node: self.node, errno: self.errno@ }
    }
}

/// An internal failure reported on a node, with its message.
pub open spec fn internal_failure_at(node: usize, msg: Seq<char>) -> SyntaxErrorView {
    SyntaxErrorView { node, errno: ErrorCodeView::InternalFailure(msg) }
}

/// A subtype error reported on a node.
pub open spec fn expected_subtype_at(node: usize) -> SyntaxErrorView {
    SyntaxErrorView { node, errno: ErrorCodeView::ExpectedSubtype }
}

/// An unknown variable reported on a node.
pub open spec fn variable_not_found_at(node: usize) -> SyntaxErrorView {
    SyntaxErrorView { node, errno: ErrorCodeView::VariableNotFound }
}

/// Construct a syntax error which represents an internal failure of
/// some kind.
pub fn internal_failure(node: usize, msg: &str) -> (e: SyntaxError)
    ensures
        e@ == internal_failure_at(node, msg@),
{
    SyntaxError { node, errno: ErrorCode::InternalFailure(msg.to_owned()) }
}

/// Construct a syntax error representing a subtype error of some kind
/// (e.g. expected int, found bool).
pub fn expected_subtype(node: usize) -> (e: SyntaxError)
    ensures
        e@ == expected_subtype_at(node),
{
    SyntaxError { node, errno: ErrorCode::ExpectedSubtype }
}

/// Construct a syntax error representing a variable not found error.
pub fn variable_not_found(node: usize) -> (e: SyntaxError)
    ensures
        e@ == variable_not_found_at(node),
{
    SyntaxError { node, errno: ErrorCode::VariableNotFound }
}

} // verus!
