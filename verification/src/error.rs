//! Errors of the face analysis pipeline.

use vstd::prelude::*;

verus! {

/// What went wrong, with a message for people.
#[derive(Debug, PartialEq, Eq)]
pub enum FaceIdError {
    /// The inference runtime failed, or answered in an unexpected shape.
    Ort(String),
    /// A model or its output cannot be used.
    InvalidModel(String),
    /// A model was left locked by a thread that panicked.
    MutexPoisoned(String),
    /// Clustering failed.
    Clustering(String),
    /// An array could not be viewed as one slice.
    FailedToGetMutableSlice(String),
    /// An array does not have the expected number of axes.
    Shape(String),
}

/// The value of an error, with its message as characters.
pub enum FaceIdErrorView {
    Ort(Seq<char>),
    InvalidModel(Seq<char>),
    MutexPoisoned(Seq<char>),
    Clustering(Seq<char>),
    FailedToGetMutableSlice(Seq<char>),
    Shape(Seq<char>),
}

impl View for FaceIdError {
    type V = FaceIdErrorView;

    open spec fn view(&self) -> FaceIdErrorView {
        match self {
            FaceIdError::Ort(m) => FaceIdErrorView::Ort(m@),
            FaceIdError::InvalidModel(m) => FaceIdErrorView::InvalidModel(m@),
            FaceIdError::MutexPoisoned(m) => FaceIdErrorView::MutexPoisoned(m@),
            FaceIdError::Clustering(m) => FaceIdErrorView::Clustering(m@),
            FaceIdError::FailedToGetMutableSlice(m) => FaceIdErrorView::FailedToGetMutableSlice(m@),
            FaceIdError::Shape(m) => FaceIdErrorView::Shape(m@),
        }
    }
}

/// The value of a result that lists items.
pub open spec fn viewed<T>(r: Result<Vec<T>, FaceIdError>) -> Result<Seq<T>, FaceIdErrorView> {
    match r {
        Ok(v) => Ok(v@),
        Err(e) => Err(e@),
    }
}

pub(crate) fn invalid_model(message: &str) -> (e: FaceIdError)
    ensures
        e@ == FaceIdErrorView::InvalidModel(message@),
{
    FaceIdError::InvalidModel(message.to_owned())
}

/// The value of an error has its kind and its message, and different values come of
/// different errors.
pub proof fn law_errors_keep_kind_and_message(e: FaceIdError)
    ensures
        match e {
            FaceIdError::Ort(m) => e@ is Ort && e@->Ort_0 == m@,
            FaceIdError::InvalidModel(m) => e@ is InvalidModel && e@->InvalidModel_0 == m@,
            FaceIdError::MutexPoisoned(m) => e@ is MutexPoisoned && e@->MutexPoisoned_0 == m@,
            FaceIdError::Clustering(m) => e@ is Clustering && e@->Clustering_0 == m@,
            FaceIdError::FailedToGetMutableSlice(m) => e@ is FailedToGetMutableSlice && e@->FailedToGetMutableSlice_0
                == m@,
            FaceIdError::Shape(m) => e@ is Shape && e@->Shape_0 == m@,
        },
{
}

/// The value of a result is the list itself, or the value of the error.
pub proof fn law_results_keep_their_value<T>(r: Result<Vec<T>, FaceIdError>)
    ensures
        r matches Ok(v) ==> viewed(r) == Ok::<Seq<T>, FaceIdErrorView>(v@),
        r matches Err(e) ==> viewed(r) == Err::<Seq<T>, FaceIdErrorView>(e@),
{
}

} // verus!
