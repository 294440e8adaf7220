use vstd::prelude::*;
use crate::types::ClassKey;

verus! {

/// Why an operation on offers was refused before any request was made.
#[derive(Clone, Copy, Debug, PartialEq, Eq)]
pub enum ParameterError {
    CannotAcceptOwnOffer,
    CannotAcceptInactiveOffer,
    CannotCancelTheirOffer,
    CannotDeclineOwnOffer,
    NotAccepted,
    MissingTradeId,
    EmptyOffer,
    TooManyItems,
}

/// Errors of the library.
#[derive(Clone, Copy, Debug, PartialEq, Eq)]
pub enum Error {
    /// The remote source failed or answered in an unexpected shape.
    Remote,
    /// The request needs a session, and none was set.
    NotLoggedIn,
    /// Persisted or remote data could not be read as metadata.
    Parse,
    /// An asset refers to a class whose metadata could not be resolved.
    MissingClassInfo(ClassKey),
    /// The poll command queue is full.
    PollingBufferFull,
    /// No poll supervisor is running.
    PollingNotSetup,
    /// No mobile confirmation exists for the offer.
    NoConfirmationForOffer(u64),
    Parameter(ParameterError),
    /// The remote source reported that the request did not succeed.
    ResponseUnsuccessful,
    /// The remote source answered in a way that cannot be followed.
    MalformedResponse,
}

} // verus!
