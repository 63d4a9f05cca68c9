//! Error types of the federation library.
use vstd::prelude::*;

verus! {

/// A single federation error, with its message.
#[derive(Debug, PartialEq, Eq)]
pub enum SingleFederationError {
    Internal { message: String },
    InvalidGraphQL { message: String },
    InvalidFederationSupergraph { message: String },
}

/// A collection of federation errors.
#[derive(Debug, PartialEq, Eq)]
pub struct MultipleFederationErrors {
    pub errors: Vec<SingleFederationError>,
}

/// The error type of the federation operations.
#[derive(Debug, PartialEq, Eq)]
pub enum FederationError {
    SingleFederationError(SingleFederationError),
    MultipleFederationErrors(MultipleFederationErrors),
}

/// Whether `e` is an internal error whose message is `m`.
pub open spec fn is_internal_error(e: FederationError, m: Seq<char>) -> bool {
    e matches FederationError::SingleFederationError(SingleFederationError::Internal { message })
        && message@ == m
}

/// Whether `e` is an internal error (whatever its message).
pub open spec fn is_internal(e: FederationError) -> bool {
    e matches FederationError::SingleFederationError(SingleFederationError::Internal { .. })
}

/// Whether `e` is an invalid-GraphQL error whose message is `m`.
pub open spec fn is_invalid_graphql_error(e: FederationError, m: Seq<char>) -> bool {
    e matches FederationError::SingleFederationError(
        SingleFederationError::InvalidGraphQL { message },
    ) && message@ == m
}

impl FederationError {
    /// An internal error with the given message.
    pub fn internal(message: String) -> (res: Self)
        ensures
            is_internal_error(res, message@),
    {
        FederationError::SingleFederationError(SingleFederationError::Internal { message })
    }
}

/// The error of the supergraph operations of the early supergraph API.
#[derive(Debug, PartialEq, Eq)]
pub struct SupergraphError {
    pub msg: String,
}

/// The error of the subgraph operations.
#[derive(Debug, PartialEq, Eq)]
pub struct SubgraphError {
    pub msg: String,
}

} // verus!
