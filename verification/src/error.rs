//! The ways in which a lookup fails.

use vstd::prelude::*;

verus! {

/// Why a symbol, a structure, a variable or an image could not be read.
#[derive(Debug, Clone)]
pub enum DebugError {
    /// The image or its RTT control block is unusable.
    RttError(String),
    /// The debug information is missing, malformed or does not fit the request.
    DwarfError(String),
    /// No symbol of the image answers the request.
    SymbolNotFound(String),
    /// No structure of that name is described.
    StructNotFound(String),
    /// The structure named first has no member named second.
    MemberNotFound(String, String),
    /// No variable of that name is described.
    VariableNotFound(String),
}

/// A [`DebugError`] with its texts as character sequences.
pub enum ErrorView {
    RttError(Seq<char>),
    DwarfError(Seq<char>),
    SymbolNotFound(Seq<char>),
    StructNotFound(Seq<char>),
    MemberNotFound(Seq<char>, Seq<char>),
    VariableNotFound(Seq<char>),
}

impl View for DebugError {
    type V = ErrorView;

    open spec fn view(&self) -> ErrorView {
        match self {
            DebugError::RttError(text) => ErrorView::RttError(text@),
            DebugError::DwarfError(text) => ErrorView::DwarfError(text@),
            DebugError::SymbolNotFound(text) => ErrorView::SymbolNotFound(text@),
            DebugError::StructNotFound(name) => ErrorView::StructNotFound(name@),
            DebugError::MemberNotFound(owner, member) => ErrorView::MemberNotFound(
                owner@,
                member@,
            ),
            DebugError::VariableNotFound(name) => ErrorView::VariableNotFound(name@),
        }
    }
}

/// A result with both sides viewed.
pub open spec fn outcome<T: View>(result: Result<T, DebugError>) -> Result<T::V, ErrorView> {
    match result {
        Ok(value) => Ok(value@),
        Err(error) => Err(error@),
    }
}

/// The view of an error has its kind and its texts.
pub proof fn lemma_error_view(error: DebugError)
    ensures
        match error {
            DebugError::RttError(text) => error@ == ErrorView::RttError(text@),
            DebugError::DwarfError(text) => error@ == ErrorView::DwarfError(text@),
            DebugError::SymbolNotFound(text) => error@ == ErrorView::SymbolNotFound(text@),
            DebugError::StructNotFound(name) => error@ == ErrorView::StructNotFound(name@),
            DebugError::MemberNotFound(owner, member) => error@ == ErrorView::MemberNotFound(
                owner@,
                member@,
            ),
            DebugError::VariableNotFound(name) => error@ == ErrorView::VariableNotFound(name@),
        },
{
}

/// The view of a result is a success or a failure as the result is, with what it holds viewed.
pub proof fn lemma_outcome<T: View>(result: Result<T, DebugError>)
    ensures
        result matches Ok(value) ==> outcome(result) == Ok::<T::V, ErrorView>(value@),
        result matches Err(error) ==> outcome(result) == Err::<T::V, ErrorView>(error@),
{
}

} // verus!
