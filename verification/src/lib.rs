//! Signed, bounded contact records for identity-based discovery.
//!
//! A contact record binds an identity's public key to a short list of routing
//! hints (IP socket addresses and relay URLs) for a validity window of at most
//! one hour. This crate holds the canonical wire format, its parser, the
//! freshness and address policy, and the decisions of the HTTP lookup client
//! and of the handshake benchmark.
use vstd::prelude::*;

pub mod address;
pub mod bench;
pub mod contact;
pub mod discovery;
pub mod error;
pub mod wire;

pub use address::{AddressSet, ContactAddress, IpEndpoint};
pub use contact::{ContactClaim, PeerId, SignedContact, MAX_CONTACT_SIZE};
pub use discovery::HttpDiscovery;
pub use error::{Error, ProtocolError};

verus! {

} // verus!
