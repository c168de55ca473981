//! Errors reported by table batch preparation and application.

use vstd::prelude::*;

verus! {

/// What kind of failure an error reports.
#[derive(Clone, Copy, Debug, PartialEq, Eq, Structural)]
pub enum ErrorKind {
    ConfigError,
    InvalidState,
    ConversionError,
    SourceReplicaIdentityError,
    DestinationConnectionFailed,
    DestinationQueryFailed,
    DestinationAtomicBatchRetryable,
}

/// One failure: its kind, a fixed description, an optional detail, the text of
/// the database driver error behind it, and the error it was raised from.
#[derive(Debug, PartialEq)]
pub struct EtlError {
    pub kind: ErrorKind,
    pub description: String,
    pub detail: Option<String>,
    pub driver: Option<String>,
    pub cause: Option<Box<EtlError>>,
}

/// Contents of an [`EtlError`].
pub struct ErrorView {
    pub kind: ErrorKind,
    pub description: Seq<char>,
    pub detail: Option<Seq<char>>,
    pub driver: Option<Seq<char>>,
    pub cause: Option<Box<ErrorView>>,
}

/// Contents of an optional string.
pub open spec fn optional_text(text: Option<String>) -> Option<Seq<char>> {
    match text {
        None => None,
        Some(s) => Some(s@),
    }
}

/// An error with a description alone.
pub open spec fn plain_error(kind: ErrorKind, description: Seq<char>) -> ErrorView {
    ErrorView { kind, description, detail: None, driver: None, cause: None }
}

/// An error with a description and a detail.
pub open spec fn detailed_error(
    kind: ErrorKind,
    description: Seq<char>,
    detail: Seq<char>,
) -> ErrorView {
    ErrorView { kind, description, detail: Some(detail), driver: None, cause: None }
}

impl EtlError {
    pub open spec fn view(&self) -> ErrorView
        decreases self,
    {
        ErrorView {
            kind: self.kind,
            description: self.description@,
            detail: optional_text(self.detail),
            driver: optional_text(self.driver),
            cause: match self.cause {
                None => None,
                Some(inner) => Some(Box::new(inner.view())),
            },
        }
    }

    /// Creates an error with a description alone.
    pub fn new(kind: ErrorKind, description: &str) -> (r: EtlError)
        ensures
            r@ == plain_error(kind, description@),
    {
        EtlError { kind, description: description.to_owned(), detail: None, driver: None, cause: None }
    }

    /// Creates an error with a description and a detail.
    pub fn with_detail(kind: ErrorKind, description: &str, detail: String) -> (r: EtlError)
        ensures
            r@ == detailed_error(kind, description@, detail@),
    {
        EtlError {
            kind,
            description: description.to_owned(),
            detail: Some(detail),
            driver: None,
            cause: None,
        }
    }

    /// Returns the kind of failure.
    pub fn kind(&self) -> (r: ErrorKind)
        ensures
            r == self@.kind,
    {
        self.kind
    }

    /// Returns the fixed description.
    pub fn description(&self) -> (r: &str)
        ensures
            r@ == self@.description,
    {
        self.description.as_str()
    }
}

fn clone_text(text: &Option<String>) -> (r: Option<String>)
    ensures
        optional_text(r) == optional_text(*text),
{
    match text {
        None => None,
        Some(text) => Some(text.clone()),
    }
}

/// Copies an error.
pub fn clone_error(error: &EtlError) -> (r: EtlError)
    ensures
        r@ == error@,
    decreases error,
{
    let cause = match &error.cause {
        None => None,
        Some(inner) => Some(Box::new(clone_error(inner))),
    };
    EtlError {
        kind: error.kind,
        description: error.description.clone(),
        detail: clone_text(&error.detail),
        driver: clone_text(&error.driver),
        cause,
    }
}

} // verus!
