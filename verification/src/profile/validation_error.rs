use vstd::prelude::*;

verus! {

/// Why a profile does not fit the monitors at hand. Each variant names the
/// monitor; the three-field ones then give the offending value and a reason.
#[derive(Clone, Debug, PartialEq, Eq)]
pub enum ValidationError {
    MonitorNotFound(String),
    ResolutionNotSupported(String, String, String),
    RefreshRateNotSupported(String, String, String),
    InvalidTransformationValue(String, String, String),
    InvalidScaleValue(String, String, String),
    InvalidMirrorSourceName(String, String, String),
    DuplicateProfileId(String),
}

/// A `ValidationError` with its strings seen as character sequences.
pub enum ValidationErrorView {
    MonitorNotFound(Seq<char>),
    ResolutionNotSupported(Seq<char>, Seq<char>, Seq<char>),
    RefreshRateNotSupported(Seq<char>, Seq<char>, Seq<char>),
    InvalidTransformationValue(Seq<char>, Seq<char>, Seq<char>),
    InvalidScaleValue(Seq<char>, Seq<char>, Seq<char>),
    InvalidMirrorSourceName(Seq<char>, Seq<char>, Seq<char>),
    DuplicateProfileId(Seq<char>),
}

impl View for ValidationError {
    type V = ValidationErrorView;

    open spec fn view(&self) -> ValidationErrorView {
        match self {
            ValidationError::MonitorNotFound(a) => ValidationErrorView::MonitorNotFound(a@),
            ValidationError::ResolutionNotSupported(a, b, c) => ValidationErrorView::ResolutionNotSupported(a@, b@, c@),
            ValidationError::RefreshRateNotSupported(a, b, c) => ValidationErrorView::RefreshRateNotSupported(a@, b@, c@),
            ValidationError::InvalidTransformationValue(a, b, c) => ValidationErrorView::InvalidTransformationValue(a@, b@, c@),
            ValidationError::InvalidScaleValue(a, b, c) => ValidationErrorView::InvalidScaleValue(a@, b@, c@),
            ValidationError::InvalidMirrorSourceName(a, b, c) => ValidationErrorView::InvalidMirrorSourceName(a@, b@, c@),
            ValidationError::DuplicateProfileId(a) => ValidationErrorView::DuplicateProfileId(a@),
        }
    }
}

} // verus!
