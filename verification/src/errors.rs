//! Error taxonomy for the transaction-preparation core.
use vstd::prelude::*;

verus! {

/// Every failure the core can report.
///
/// Address and key text problems are caller-input errors; `MalformedValue`
/// and `MalformedAuthEntry` indicate corrupted or incompatible wire data;
/// `AccountNotFound` and `SimulationFailed` surface remote outcomes.
#[derive(Debug, Clone, PartialEq, Eq)]
pub enum CoreError {
    /// The textual address had a bad checksum, version byte, or payload size.
    InvalidAddressFormat,
    /// The textual address is a valid key of a kind the core does not accept.
    UnsupportedAddressKind,
    /// A symbol would exceed the 32-byte wire limit.
    SymbolTooLong,
    /// Binary wire data was truncated, carried an unknown tag, or had an
    /// impossible declared length.
    MalformedValue,
    /// A required storage field was absent or had the wrong shape.
    MissingField(String),
    /// An authorization entry from the simulator could not be decoded.
    MalformedAuthEntry,
    /// The remote simulator rejected the draft; the message is verbatim.
    SimulationFailed(String),
    /// Nobody has initialized the target block, so no proof can be computed.
    EntropyUnavailable,
    /// The source account does not exist on the ledger.
    AccountNotFound,
}

/// The coarse classes of `CoreError`, mirroring how callers should react.
#[derive(Debug, Clone, Copy, PartialEq, Eq)]
pub enum ErrorClass {
    /// Caller input is malformed; retrying without fixing it cannot help.
    Format,
    /// Wire data did not match the external format; not retryable.
    Codec,
    /// A looked-up object is absent; a valid outcome, not corruption.
    NotFound,
    /// The remote simulator rejected the draft.
    Simulation,
}

impl CoreError {
    /// The class a given error belongs to.
    pub fn class(&self) -> (r: ErrorClass)
        ensures
            r == self.spec_class(),
    {
        match self {
            CoreError::InvalidAddressFormat => ErrorClass::Format,
            CoreError::UnsupportedAddressKind => ErrorClass::Format,
            CoreError::SymbolTooLong => ErrorClass::Format,
            CoreError::MalformedValue => ErrorClass::Codec,
            CoreError::MissingField(_) => ErrorClass::Codec,
            CoreError::MalformedAuthEntry => ErrorClass::Codec,
            CoreError::SimulationFailed(_) => ErrorClass::Simulation,
            CoreError::EntropyUnavailable => ErrorClass::NotFound,
            CoreError::AccountNotFound => ErrorClass::NotFound,
        }
    }

    /// Ghost image of `class`.
    pub open spec fn spec_class(&self) -> ErrorClass {
        match self {
            CoreError::InvalidAddressFormat => ErrorClass::Format,
            CoreError::UnsupportedAddressKind => ErrorClass::Format,
            CoreError::SymbolTooLong => ErrorClass::Format,
            CoreError::MalformedValue => ErrorClass::Codec,
            CoreError::MissingField(_) => ErrorClass::Codec,
            CoreError::MalformedAuthEntry => ErrorClass::Codec,
            CoreError::SimulationFailed(_) => ErrorClass::Simulation,
            CoreError::EntropyUnavailable => ErrorClass::NotFound,
            CoreError::AccountNotFound => ErrorClass::NotFound,
        }
    }
}

} // verus!
