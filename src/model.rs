//! The values that flow through classification.
use vstd::prelude::*;

verus! {

/// A comment submitted for classification.
#[derive(Clone, Debug)]
pub struct AnalyzeRequest {
    pub comment: String,
}

/// A verdict on a comment. `confidence` is a floating-point literal, as the classifier wrote it
/// or as it was learned for a keyword.
#[derive(Clone, Debug, PartialEq, Eq)]
pub struct AnalyzeResponse {
    pub spam: bool,
    pub keyword: String,
    pub confidence: String,
}

impl View for AnalyzeResponse {
    type V = (bool, Seq<char>, Seq<char>);

    open spec fn view(&self) -> (bool, Seq<char>, Seq<char>) {
        (self.spam, self.keyword@, self.confidence@)
    }
}

impl AnalyzeResponse {
    /// An equal verdict.
    pub fn copy(&self) -> (r: AnalyzeResponse)
        ensures
            r == *self,
    {
        AnalyzeResponse {
            spam: self.spam,
            keyword: self.keyword.clone(),
            confidence: self.confidence.clone(),
        }
    }
}

/// Why a classification failed.
#[derive(PartialEq, Eq, Structural, Clone, Copy, Debug)]
pub enum CustomError {
    /// The call to the classifier failed on the way.
    Transport,
    /// The classifier's reply is not JSON.
    Decode,
    /// The reply lacks a field that its shape requires.
    MissingField,
    /// The reply's list of answers is empty.
    EmptyResponse,
    /// The answer does not have exactly three comma-separated fields.
    MalformedContent,
    /// The first field is not an integer equal to 0 or 1.
    InvalidSpamValue,
    /// The third field is not a floating-point literal.
    InvalidConfidenceValue,
}

impl CustomError {
    /// A short description of the failure.
    pub fn message(&self) -> &'static str {
        match self {
            CustomError::Transport => "the classifier could not be reached",
            CustomError::Decode => "the classifier's reply is not JSON",
            CustomError::MissingField => "the classifier's reply lacks an expected field",
            CustomError::EmptyResponse => "the classifier's reply holds no answer",
            CustomError::MalformedContent => "the classifier's answer does not have three fields",
            CustomError::InvalidSpamValue => "the classifier's spam flag is not 0 or 1",
            CustomError::InvalidConfidenceValue => "the classifier's confidence is not a number",
        }
    }
}

} // verus!
