//! The error vocabulary exposed to API clients of an embedding server.

use vstd::prelude::*;

verus! {

/// The errors an embedding server reports to its API clients. Any failure
/// that has no dedicated variant collapses to `Unspecified`.
#[derive(Clone, Copy, Debug, PartialEq, Eq, Structural)]
pub enum APIError {
    IncorrectCredentials,
    OwnAdminPrivilegeRemoval,
    Unspecified,
}

/// The opaque error type of the `anyhow` crate, declared so that values of
/// it can cross this library's signatures.
#[verifier::external_type_specification]
#[verifier::external_body]
pub struct ExAnyhowError(anyhow::Error);

impl From<anyhow::Error> for APIError {
    /// Every `anyhow` error collapses to `Unspecified`: the API vocabulary
    /// carries no detail for them.
    fn from(_err: anyhow::Error) -> (r: Self) {
        APIError::Unspecified
    }
}

impl vstd::std_specs::convert::FromSpecImpl<anyhow::Error> for APIError {
    open spec fn obeys_from_spec() -> bool {
        true
    }

    open spec fn from_spec(_err: anyhow::Error) -> Self {
        APIError::Unspecified
    }
}

} // verus!
