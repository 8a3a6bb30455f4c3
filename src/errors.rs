//! Errors of the DPC scheme.
use vstd::prelude::*;

verus! {

/// An error of `ark_serialize`, carried through unchanged.
#[verifier::external_type_specification]
#[verifier::external_body]
pub struct ExSerializationError(ark_serialize::SerializationError);

/// All categories of error of the DPC scheme.
#[derive(Debug)]
pub enum DPCApiError {
    /// The proving system failed.
    FailedSnark(String),
    /// A cryptographic primitive failed.
    FailedPrimitives(String),
    /// Serialization failed.
    FailedSerialization(ark_serialize::SerializationError),
    /// An overflow or underflow occurred.
    OverOrUnderFlow(String),
    /// General error.
    GeneralError(String),
    /// Invalid parameters.
    InvalidParameters(String),
    /// The receiver memo signature failed.
    FailedReceiverMemoSignature(String),
    /// The authorization signature failed.
    FailedAuthorizationSignature(String),
    /// The transaction failed verification.
    FailedTransactionVerification(String),
    /// I/O failure.
    IoError(String),
    /// Invalid parameter.
    InvalidParameter(String),
    /// Deserialization failed.
    DeserializationError(String),
    /// Incorrect fee collection.
    IncorrectFee(String),
    /// Parameter generation failed.
    ParametersGenerationError(String),
    /// A bug: something that well-formed parameters never cause.
    InternalError(String),
}

impl From<ark_serialize::SerializationError> for DPCApiError {
    fn from(e: ark_serialize::SerializationError) -> (r: DPCApiError)
        ensures
            r == DPCApiError::FailedSerialization(e),
    {
        DPCApiError::FailedSerialization(e)
    }
}

impl vstd::std_specs::convert::FromSpecImpl<ark_serialize::SerializationError> for DPCApiError {
    open spec fn obeys_from_spec() -> bool {
        true
    }

    open spec fn from_spec(e: ark_serialize::SerializationError) -> DPCApiError {
        DPCApiError::FailedSerialization(e)
    }
}

} // verus!
