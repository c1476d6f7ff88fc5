//! Errors of contact signing, verification and lookup.
use vstd::prelude::*;

verus! {

/// Why a record or a lookup was refused on protocol grounds.
#[derive(Clone, Copy, Debug, PartialEq, Eq, Structural)]
pub enum ProtocolError {
    /// The validity window is empty, longer than an hour, not yet open or already over.
    ValidityWindow,
    /// The record has no address or more than the allowed number of them.
    InvalidAddresses,
    /// An address is not a usable routing hint.
    UnsupportedAddress,
    /// The wire record announces more addresses than allowed.
    TooManyAddresses,
    /// The signed record is larger than the wire limit.
    ContactTooLarge,
    /// A discovery origin is neither `http` nor `https`.
    InvalidOrigin,
    /// A discovery response grew larger than the wire limit.
    ResponseTooLarge,
}

/// Errors of this crate.
#[derive(Clone, Copy, Debug, PartialEq, Eq, Structural)]
pub enum Error {
    /// A protocol rule was broken.
    Protocol(ProtocolError),
    /// The bytes are not a canonical record.
    Encoding,
    /// The embedded public identity is too large.
    PublicIdentity,
    /// The record was signed by another identity than the one expected.
    IdentityMismatch,
    /// The identity layer refused to sign or to accept a signature.
    Signature,
}

impl ProtocolError {
    /// The human-readable reason.
    pub fn message(&self) -> (r: &'static str)
        ensures
            *self == ProtocolError::ValidityWindow ==> r@ == "contact validity window"@,
            *self == ProtocolError::InvalidAddresses ==> r@ == "invalid contact addresses"@,
            *self == ProtocolError::UnsupportedAddress ==> r@ == "unsupported contact address"@,
            *self == ProtocolError::TooManyAddresses ==> r@ == "too many contact addresses"@,
            *self == ProtocolError::ContactTooLarge ==> r@ == "contact too large"@,
            *self == ProtocolError::InvalidOrigin ==> r@ == "invalid discovery origin"@,
            *self == ProtocolError::ResponseTooLarge ==> r@ == "discovery response too large"@,
    {
        match self {
            ProtocolError::ValidityWindow => "contact validity window",
            ProtocolError::InvalidAddresses => "invalid contact addresses",
            ProtocolError::UnsupportedAddress => "unsupported contact address",
            ProtocolError::TooManyAddresses => "too many contact addresses",
            ProtocolError::ContactTooLarge => "contact too large",
            ProtocolError::InvalidOrigin => "invalid discovery origin",
            ProtocolError::ResponseTooLarge => "discovery response too large",
        }
    }
}

} // verus!
