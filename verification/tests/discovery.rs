use iroh_identity::address::{AddressSet, ContactAddress, IpEndpoint};
use iroh_identity::contact::{ContactClaim, PeerId, SignedContact};
use iroh_identity::error::Error;

/// A stand-in for an identity: its algorithm number, identity and public key.
struct TestIdentity {
    algorithm: u8,
    id: PeerId,
    public: Vec<u8>,
}

impl TestIdentity {
    fn generate(seed: u8) -> TestIdentity {
        let mut public = vec![2u8];
        public.extend(std::iter::repeat(seed).take(1952));
        TestIdentity { algorithm: 2, id: PeerId::V1([seed; 48]), public }
    }

    fn id(&self) -> PeerId {
        self.id
    }
}

/// A stand-in signature: it depends on every signed byte and on the key.
fn test_signature(public: &[u8], message: &[u8]) -> Vec<u8> {
    let mut acc: u32 = 17;
    for b in public.iter().chain(message.iter()) {
        acc = acc.wrapping_mul(31).wrapping_add(*b as u32);
    }
    (0..3309u32).map(|i| (acc.wrapping_add(i.wrapping_mul(7)) % 251) as u8).collect()
}

/// A stand-in for the identity registry: the algorithms it accepts.
struct TestRegistry {
    algorithms: Vec<u8>,
}

impl TestRegistry {
    fn verify_proof(&self, public: &[u8], message: &[u8], signature: &[u8]) -> Result<PeerId, Error> {
        if public.is_empty() || !self.algorithms.contains(&public[0]) {
            return Err(Error::Signature);
        }
        if test_signature(public, message) != signature {
            return Err(Error::Signature);
        }
        Ok(PeerId::V1([public[1]; 48]))
    }
}

fn sign(
    identity: &TestIdentity,
    sequence: u64,
    issued: u64,
    expires: u64,
    addresses: AddressSet,
) -> Result<SignedContact, Error> {
    let body = SignedContact::signing_input(&identity.public, sequence, issued, expires, &addresses)?;
    let signature = test_signature(&identity.public, &body);
    SignedContact::sign(identity.id, &identity.public, sequence, issued, expires, addresses, &signature)
}

fn verify(wire: &[u8], expected: PeerId, registry: &TestRegistry, now: u64) -> Result<SignedContact, Error> {
    let claim = ContactClaim::parse(wire, now)?;
    let answer = registry.verify_proof(claim.public_key(), claim.signed_message(), claim.signature());
    SignedContact::verify(claim, expected, answer)
}

fn ip(text: &str) -> ContactAddress {
    let addr: core::net::SocketAddr = text.parse().unwrap();
    match addr {
        core::net::SocketAddr::V4(a) => ContactAddress::ip(IpEndpoint::V4 { ip: a.ip().to_bits(), port: a.port() }),
        core::net::SocketAddr::V6(a) => ContactAddress::ip(IpEndpoint::V6 {
            ip: a.ip().to_bits(),
            port: a.port(),
            flowinfo: a.flowinfo(),
            scope_id: a.scope_id(),
        }),
    }
}

fn set_of(addresses: Vec<ContactAddress>) -> AddressSet {
    let mut set = AddressSet::new();
    for a in addresses {
        set.insert(a);
    }
    set
}

#[test]
fn contact_verification_binds_identity_policy_freshness_and_addresses() {
    let registry = TestRegistry { algorithms: vec![1, 2] };
    let identity = TestIdentity::generate(3);
    let stranger = TestIdentity::generate(4);
    let addresses = set_of(vec![ip("127.0.0.1:1234")]);
    let record = sign(&identity, 5, 1000, 1100, addresses.clone()).unwrap();
    let verified = verify(record.as_bytes(), identity.id(), &registry, 1001).unwrap();
    assert_eq!(verified.addresses(), &addresses);
    assert_eq!(verified.sequence(), 5);
    assert!(verify(record.as_bytes(), stranger.id(), &registry, 1001).is_err());
    assert!(verify(record.as_bytes(), identity.id(), &TestRegistry { algorithms: vec![1] }, 1001).is_err());
    for now in [900, 1100, 1200] {
        assert!(verify(record.as_bytes(), identity.id(), &registry, now).is_err());
    }
    let mut changed = record.as_bytes().to_vec();
    let last = changed.len() - 1;
    changed[last] ^= 1;
    assert!(verify(&changed, identity.id(), &registry, 1001).is_err());
    for length in [0, 1, 20, 100, record.as_bytes().len() - 1] {
        assert!(verify(&record.as_bytes()[..length], identity.id(), &registry, 1001).is_err());
    }
    assert!(sign(&identity, 6, 1000, 5000, addresses).is_err());
}
