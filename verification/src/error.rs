//! Error kinds reported by the validation and indexing passes.

use vstd::prelude::*;

verus! {

/// Spec-level image of an [`Error`], with string payloads as character
/// sequences.
pub ghost enum ErrorV {
    Runtime(Seq<char>),
    ParentNodeNotFound(Seq<char>),
    RootNodeNotFound,
    MultipleRootNode,
}

/// One terminal failure of a transform; every pass reports the first
/// violation it meets and stops.
#[derive(Debug)]
pub enum Error {
    /// An internal limit was exceeded (the guard against inputs on which the
    /// passes could not finish, such as a cyclic parent chain).
    RuntimeError(String),
    /// A node references a parent identity that no non-leaf node carries.
    ParentNodeNotFoundError(String),
    /// No node lacks a parent identity.
    RootNodeNotFoundError(),
    /// More than one node lacks a parent identity.
    MultipleRootNodeError(),
}

impl View for Error {
    type V = ErrorV;

    open spec fn view(&self) -> ErrorV {
        match self {
            Error::RuntimeError(s) => ErrorV::Runtime(s@),
            Error::ParentNodeNotFoundError(s) => ErrorV::ParentNodeNotFound(s@),
            Error::RootNodeNotFoundError() => ErrorV::RootNodeNotFound,
            Error::MultipleRootNodeError() => ErrorV::MultipleRootNode,
        }
    }
}

impl Error {
    /// A short display text for the error, for the callers that print it.
    pub fn message(&self) -> String {
        match self {
            Error::RuntimeError(s) => s.clone(),
            Error::ParentNodeNotFoundError(s) => {
                let mut m = String::from_str("Parent node not found: ");
                m.append(s.as_str());
                m
            },
            Error::RootNodeNotFoundError() => String::from_str(
                "Root node not found. Remove `\"parent\"` from root node or set it to `null`",
            ),
            Error::MultipleRootNodeError() => String::from_str(
                "Multiple nodes with `\"parent\"` is null were found.",
            ),
        }
    }
}

} // verus!
