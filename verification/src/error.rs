//! The failures that the core reports.

use vstd::prelude::*;

verus! {

/// Why a request to the core failed.
#[derive(Debug, PartialEq, Eq)]
pub enum ThrillerError {
    /// An accessor was used on a vertex whose content does not support it.
    TypeMismatch,
    /// A vertex that is not registered in the graph was referred to.
    InvalidReference,
    /// An emission pass could not reach every vertex. Holds the ids of the
    /// vertices that were left, in the order in which they were inserted.
    CycleDetected(Vec<usize>),
    /// The emission of a vertex failed during a pass. Holds the id of that
    /// vertex and the failure as the vertex returned it, which the core
    /// does not read.
    EmissionFailure(usize, Box<ThrillerError>),
}

/// The result of a request to the core.
pub type ThrillerResult<T> = Result<T, ThrillerError>;

/// The mathematical value of a [`ThrillerError`].
pub enum ErrorView {
    /// An accessor was used on a vertex whose content does not support it.
    TypeMismatch,
    /// A vertex that is not registered in the graph was referred to.
    InvalidReference,
    /// A pass could not reach every vertex; the ids of those that were left.
    CycleDetected(Seq<usize>),
    /// The emission of the vertex with this id failed, with this failure.
    EmissionFailure(usize, Box<ErrorView>),
}

impl ErrorView {
    /// Whether two failures are the same but for the ids that they hold:
    /// they are of the same kind, hold as many ids of vertices that were
    /// left, and report causes that are the same but for ids.
    pub open spec fn alike(self, other: ErrorView) -> bool
        decreases self,
    {
        match (self, other) {
            (ErrorView::TypeMismatch, ErrorView::TypeMismatch) => true,
            (ErrorView::InvalidReference, ErrorView::InvalidReference) => true,
            (ErrorView::CycleDetected(left), ErrorView::CycleDetected(others)) => left.len()
                == others.len(),
            (ErrorView::EmissionFailure(_, cause), ErrorView::EmissionFailure(_, reason)) => {
                cause.alike(*reason)
            },
            _ => false,
        }
    }
}

/// Every failure is like itself.
pub proof fn lemma_failure_is_like_itself(e: ErrorView)
    ensures
        e.alike(e),
    decreases e,
{
    match e {
        ErrorView::EmissionFailure(_, cause) => {
            lemma_failure_is_like_itself(*cause);
        },
        _ => {},
    }
}

/// Whether two results of an emission are the same but for ids: the same
/// text, or failures that are alike.
pub open spec fn alike(
    first: Result<Seq<char>, ErrorView>,
    second: Result<Seq<char>, ErrorView>,
) -> bool {
    match (first, second) {
        (Ok(text), Ok(other)) => text == other,
        (Err(e), Err(f)) => e.alike(f),
        _ => false,
    }
}

impl ThrillerError {
    /// The mathematical value of the failure, layer by layer.
    pub open spec fn model(&self) -> ErrorView
        decreases self,
    {
        match self {
            ThrillerError::TypeMismatch => ErrorView::TypeMismatch,
            ThrillerError::InvalidReference => ErrorView::InvalidReference,
            ThrillerError::CycleDetected(stuck) => ErrorView::CycleDetected(stuck@),
            ThrillerError::EmissionFailure(id, cause) => ErrorView::EmissionFailure(
                *id,
                Box::new(cause.model()),
            ),
        }
    }
}

impl View for ThrillerError {
    type V = ErrorView;

    open spec fn view(&self) -> ErrorView {
        self.model()
    }
}

/// The mathematical value of the result of an emission: the text as a
/// sequence of characters, or the view of the failure.
pub open spec fn emission_view(r: ThrillerResult<String>) -> Result<Seq<char>, ErrorView> {
    match r {
        Ok(text) => Ok(text@),
        Err(e) => Err(e@),
    }
}

/// The mathematical values of the results of several emissions, one by one.
pub open spec fn emission_views(rs: Seq<ThrillerResult<String>>) -> Seq<
    Result<Seq<char>, ErrorView>,
> {
    rs.map_values(|r: ThrillerResult<String>| emission_view(r))
}

/// What a pass takes from the vertex with the given id when the emission of
/// that vertex yields `r`: the text as it is, or the failure together with
/// the id.
pub open spec fn attributed(id: usize, r: Result<Seq<char>, ErrorView>) -> Result<
    Seq<char>,
    ErrorView,
> {
    match r {
        Ok(text) => Ok(text),
        Err(e) => Err(ErrorView::EmissionFailure(id, Box::new(e))),
    }
}

/// Attaches the id of a vertex to the failure of its emission and leaves a
/// text as it is.
pub fn attribute(id: usize, r: ThrillerResult<String>) -> (out: ThrillerResult<String>)
    ensures
        emission_view(out) == attributed(id, emission_view(r)),
{
    match r {
        Ok(text) => Ok(text),
        Err(e) => Err(ThrillerError::EmissionFailure(id, Box::new(e))),
    }
}

} // verus!
