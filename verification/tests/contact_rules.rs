use iroh_identity::address::{AddressSet, ContactAddress, IpEndpoint};
use iroh_identity::contact::{unsupported_set_error, validate, validate_window, ContactClaim, PeerId, SignedContact, MAX_CONTACT_SIZE};
use iroh_identity::error::{Error, ProtocolError};

const MAGIC: &[u8] = b"iroh signed contact v1\0";

fn ip(text: &str) -> ContactAddress {
    let addr: core::net::SocketAddr = text.parse().unwrap();
    match addr {
        core::net::SocketAddr::V4(a) => ContactAddress::ip(IpEndpoint::V4 { ip: a.ip().to_bits(), port: a.port() }),
        core::net::SocketAddr::V6(a) => ContactAddress::ip(IpEndpoint::V6 {
            ip: a.ip().to_bits(),
            port: a.port(),
            flowinfo: a.flowinfo(),
            scope_id: a.scope_id(),
        }),
    }
}

fn relay(text: &str) -> ContactAddress {
    ContactAddress::relay(text).unwrap()
}

fn set_of(addresses: Vec<ContactAddress>) -> AddressSet {
    let mut set = AddressSet::new();
    for a in addresses {
        set.insert(a);
    }
    set
}

fn one_address() -> AddressSet {
    set_of(vec![ip("127.0.0.1:1234")])
}

const ID: PeerId = PeerId::V1([3; 48]);

/// The signed part of a record, written out by hand.
fn body(public: &[u8], issued: u64, expires: u64, sequence: u64, texts: &[&[u8]]) -> Vec<u8> {
    let mut w = MAGIC.to_vec();
    w.extend_from_slice(&(public.len() as u16).to_be_bytes());
    w.extend_from_slice(public);
    w.extend_from_slice(&issued.to_be_bytes());
    w.extend_from_slice(&expires.to_be_bytes());
    w.extend_from_slice(&sequence.to_be_bytes());
    w.extend_from_slice(&(texts.len() as u16).to_be_bytes());
    for t in texts {
        w.extend_from_slice(&(t.len() as u16).to_be_bytes());
        w.extend_from_slice(t);
    }
    w
}

#[test]
fn signed_record_has_exact_encoding() {
    let addresses = one_address();
    let expected = body(&[1, 2], 1000, 1100, 5, &[b"ip:127.0.0.1:1234"]);
    let input = SignedContact::signing_input(&[1, 2], 5, 1000, 1100, &addresses).unwrap();
    assert_eq!(input, expected);
    assert_eq!(input.len(), 23 + 4 + 24 + 2 + 2 + 17);
    let record = SignedContact::sign(ID, &[1, 2], 5, 1000, 1100, addresses.clone(), &[0xaa, 0xbb]).unwrap();
    let mut wire = expected.clone();
    wire.extend_from_slice(&[0xaa, 0xbb]);
    assert_eq!(record.as_bytes(), &wire[..]);
    assert_eq!(record.id(), ID);
    assert_eq!(record.issued(), 1000);
    assert_eq!(record.expires(), 1100);
    assert_eq!(record.sequence(), 5);
    assert_eq!(record.addresses(), &addresses);
}

#[test]
fn claim_splits_signed_part_and_signature() {
    let mut wire = body(&[1, 2], 1000, 1100, 5, &[b"ip:127.0.0.1:1234"]);
    let signed_len = wire.len();
    wire.extend_from_slice(&[0xaa, 0xbb]);
    let claim = ContactClaim::parse(&wire, 1001).unwrap();
    assert_eq!(claim.public_key(), &[1, 2]);
    assert_eq!(claim.signed_message(), &wire[..signed_len]);
    assert_eq!(claim.signature(), &[0xaa, 0xbb]);
    let contact = SignedContact::verify(claim, ID, Ok(ID)).unwrap();
    assert_eq!(contact.as_bytes(), &wire[..]);
    assert_eq!(contact.addresses(), &one_address());
}

#[test]
fn sign_then_verify_gives_back_the_record() {
    let addresses = set_of(vec![
        ip("[2001:db8::1]:443"),
        relay("https://relay.example.com"),
        ip("192.0.2.7:7000"),
        relay("http://b.example.org:8080/x"),
    ]);
    assert_eq!(addresses.len(), 4);
    let public = vec![5u8; 2000];
    let body = SignedContact::signing_input(&public, 42, 5000, 8600, &addresses).unwrap();
    let signature = vec![7u8; 3309];
    let record = SignedContact::sign(ID, &public, 42, 5000, 8600, addresses.clone(), &signature).unwrap();
    assert_eq!(&record.as_bytes()[..body.len()], &body[..]);
    for now in [4970, 5000, 8599] {
        let claim = ContactClaim::parse(record.as_bytes(), now).unwrap();
        assert_eq!(claim.public_key(), &public[..]);
        assert_eq!(claim.signed_message(), &body[..]);
        assert_eq!(claim.signature(), &signature[..]);
        let back = SignedContact::verify(claim, ID, Ok(ID)).unwrap();
        assert_eq!(back.id(), record.id());
        assert_eq!(back.issued(), record.issued());
        assert_eq!(back.expires(), record.expires());
        assert_eq!(back.sequence(), record.sequence());
        assert_eq!(back.addresses(), record.addresses());
        assert_eq!(back.as_bytes(), record.as_bytes());
    }
}

#[test]
fn verify_checks_freshness_edges() {
    let record = SignedContact::sign(ID, &[1], 1, 1000, 1100, one_address(), &[0]).unwrap();
    let window = Err(Error::Protocol(ProtocolError::ValidityWindow));
    assert!(ContactClaim::parse(record.as_bytes(), 970).is_ok());
    assert_eq!(ContactClaim::parse(record.as_bytes(), 969).map(|_| ()), window);
    assert!(ContactClaim::parse(record.as_bytes(), 1099).is_ok());
    assert_eq!(ContactClaim::parse(record.as_bytes(), 1100).map(|_| ()), window);
    assert_eq!(ContactClaim::parse(record.as_bytes(), u64::MAX).map(|_| ()), window);
}

#[test]
fn verify_reports_identity_layer_answers() {
    let record = SignedContact::sign(ID, &[1], 1, 1000, 1100, one_address(), &[0]).unwrap();
    let claim = ContactClaim::parse(record.as_bytes(), 1000).unwrap();
    assert_eq!(
        SignedContact::verify(claim.clone(), ID, Ok(PeerId::V1([4; 48]))).map(|_| ()),
        Err(Error::IdentityMismatch)
    );
    assert_eq!(SignedContact::verify(claim, ID, Err(Error::Signature)).map(|_| ()), Err(Error::Signature));
}

#[test]
fn sign_applies_window_and_address_rules() {
    let window = Err(Error::Protocol(ProtocolError::ValidityWindow));
    let unsupported = Err(Error::Protocol(ProtocolError::UnsupportedAddress));
    let check = |issued: u64, expires: u64, addresses: AddressSet| {
        SignedContact::sign(ID, &[1], 1, issued, expires, addresses, &[0]).map(|_| ())
    };
    assert_eq!(check(1000, 1000, one_address()), window);
    assert_eq!(check(1000, 999, one_address()), window);
    assert_eq!(check(1000, 4601, one_address()), window);
    assert_eq!(check(1000, 4600, one_address()), Ok(()));
    assert_eq!(check(u64::MAX - 10, u64::MAX, one_address()), Ok(()));
    assert_eq!(check(1000, 1100, AddressSet::new()), Err(Error::Protocol(ProtocolError::InvalidAddresses)));
    assert_eq!(check(1000, 1100, set_of(vec![ip("0.0.0.0:1")])), unsupported);
    assert_eq!(check(1000, 1100, set_of(vec![ip("224.0.0.1:5")])), unsupported);
    assert_eq!(check(1000, 1100, set_of(vec![ip("239.255.255.255:5")])), unsupported);
    assert_eq!(check(1000, 1100, set_of(vec![ip("223.255.255.255:5")])), Ok(()));
    assert_eq!(check(1000, 1100, set_of(vec![ip("10.0.0.1:0")])), unsupported);
    assert_eq!(check(1000, 1100, set_of(vec![ip("[::]:5")])), unsupported);
    assert_eq!(check(1000, 1100, set_of(vec![ip("[ff02::1]:5")])), unsupported);
    assert_eq!(check(1000, 1100, set_of(vec![ip("[fe80::1%2]:5")])), Ok(()));
    assert_eq!(check(1000, 1100, set_of(vec![relay("ftp://relay.example.com")])), unsupported);
    let long = format!("https://relay.example.com/{}", "a".repeat(2048 - 26));
    assert_eq!(long.len(), 2048);
    assert_eq!(check(1000, 1100, set_of(vec![relay(&long)])), Ok(()));
    let longer = format!("{long}b");
    assert_eq!(check(1000, 1100, set_of(vec![relay(&longer)])), unsupported);
    let many: Vec<ContactAddress> = (1..=33u16).map(|p| ip(&format!("10.0.0.1:{p}"))).collect();
    assert_eq!(check(1000, 1100, set_of(many[..32].to_vec())), Ok(()));
    assert_eq!(check(1000, 1100, set_of(many)), Err(Error::Protocol(ProtocolError::InvalidAddresses)));
}

#[test]
fn sign_refuses_oversized_parts() {
    let big_signature = vec![0u8; MAX_CONTACT_SIZE];
    assert_eq!(
        SignedContact::sign(ID, &[1], 1, 1000, 1100, one_address(), &big_signature).map(|_| ()),
        Err(Error::Protocol(ProtocolError::ContactTooLarge))
    );
    let huge_public = vec![0u8; 70000];
    assert_eq!(
        SignedContact::signing_input(&huge_public, 1, 1000, 1100, &one_address()).map(|_| ()),
        Err(Error::Encoding)
    );
    let input = SignedContact::signing_input(&[1], 1, 1000, 1100, &one_address()).unwrap();
    let fitting = vec![0u8; MAX_CONTACT_SIZE - input.len()];
    let record = SignedContact::sign(ID, &[1], 1, 1000, 1100, one_address(), &fitting).unwrap();
    assert_eq!(record.as_bytes().len(), MAX_CONTACT_SIZE);
    let over = vec![0u8; MAX_CONTACT_SIZE - input.len() + 1];
    assert!(SignedContact::sign(ID, &[1], 1, 1000, 1100, one_address(), &over).is_err());
}

fn parse_err(wire: &[u8]) -> Error {
    ContactClaim::parse(wire, 1001).unwrap_err()
}

#[test]
fn parse_refuses_malformed_records() {
    let good = body(&[1, 2], 1000, 1100, 5, &[b"ip:127.0.0.1:1234"]);
    assert!(ContactClaim::parse(&good, 1001).is_ok());
    let mut bad_magic = good.clone();
    bad_magic[0] = b'x';
    assert_eq!(parse_err(&bad_magic), Error::Encoding);
    assert_eq!(parse_err(&good[..10]), Error::Encoding);
    let mut oversized = good.clone();
    oversized.resize(MAX_CONTACT_SIZE + 1, 0);
    assert_eq!(parse_err(&oversized), Error::Encoding);
    let mut at_limit = good.clone();
    at_limit.resize(MAX_CONTACT_SIZE, 0);
    assert!(ContactClaim::parse(&at_limit, 1001).is_ok());
    let big_public = vec![1u8; 8193];
    assert_eq!(parse_err(&body(&big_public, 1000, 1100, 5, &[b"ip:127.0.0.1:1234"])), Error::PublicIdentity);
    let max_public = vec![1u8; 8192];
    assert!(ContactClaim::parse(&body(&max_public, 1000, 1100, 5, &[b"ip:127.0.0.1:1234"]), 1001).is_ok());
    let texts: Vec<Vec<u8>> = (1..=33u16).map(|p| format!("ip:10.0.0.1:{p}").into_bytes()).collect();
    let refs: Vec<&[u8]> = texts.iter().map(|t| t.as_slice()).collect();
    assert_eq!(parse_err(&body(&[1], 1000, 1100, 5, &refs)), Error::Protocol(ProtocolError::TooManyAddresses));
    assert!(ContactClaim::parse(&body(&[1], 1000, 1100, 5, &refs[..32]), 1001).is_ok());
    assert_eq!(parse_err(&body(&[1], 1000, 1100, 5, &[])), Error::Protocol(ProtocolError::InvalidAddresses));
}

#[test]
fn parse_refuses_non_canonical_addresses() {
    let refuse = |text: &[u8]| parse_err(&body(&[1], 1000, 1100, 5, &[text]));
    assert_eq!(refuse(b"tcp:127.0.0.1:1234"), Error::Encoding);
    assert_eq!(refuse(b"ip:127.0.0.1"), Error::Encoding);
    assert_eq!(refuse(b"ip:[0:0:0:0:0:0:0:1]:80"), Error::Encoding);
    assert_eq!(refuse(b"ip:\xff"), Error::Encoding);
    assert_eq!(refuse(b"relay:https://Relay.example.com"), Error::Encoding);
    assert_eq!(refuse(b"relay:not a url"), Error::Encoding);
    assert!(ContactClaim::parse(&body(&[1], 1000, 1100, 5, &[b"ip:[::1]:80"]), 1001).is_ok());
    assert!(ContactClaim::parse(&body(&[1], 1000, 1100, 5, &[b"relay:https://relay.example.com/"]), 1001).is_ok());
    let out_of_order = body(&[1], 1000, 1100, 5, &[b"ip:127.0.0.1:1234", b"relay:https://relay.example.com/"]);
    assert_eq!(parse_err(&out_of_order), Error::Encoding);
    let in_order = body(&[1], 1000, 1100, 5, &[b"relay:https://relay.example.com/", b"ip:127.0.0.1:1234"]);
    assert!(ContactClaim::parse(&in_order, 1001).is_ok());
    let repeated = body(&[1], 1000, 1100, 5, &[b"ip:127.0.0.1:1234", b"ip:127.0.0.1:1234"]);
    assert_eq!(parse_err(&repeated), Error::Encoding);
    let unsupported = body(&[1], 1000, 1100, 5, &[b"ip:0.0.0.0:1234"]);
    assert_eq!(parse_err(&unsupported), Error::Protocol(ProtocolError::UnsupportedAddress));
}

#[test]
fn validate_reports_each_rule() {
    let a = one_address();
    assert_eq!(validate(1000, 1100, 1001, &a), Ok(()));
    assert_eq!(validate(1000, 1100, 970, &a), Ok(()));
    assert_eq!(validate(1000, 1100, 969, &a), Err(Error::Protocol(ProtocolError::ValidityWindow)));
    assert_eq!(validate(1000, 1100, 1100, &a), Err(Error::Protocol(ProtocolError::ValidityWindow)));
    assert_eq!(validate(1000, 4600, 1000, &a), Ok(()));
    assert_eq!(validate(1000, 4601, 1000, &a), Err(Error::Protocol(ProtocolError::ValidityWindow)));
    assert_eq!(validate(1000, 1100, 1000, &AddressSet::new()), Err(Error::Protocol(ProtocolError::InvalidAddresses)));
    assert_eq!(validate(100, 50, 200, &AddressSet::new()), Err(Error::Protocol(ProtocolError::ValidityWindow)));
}

#[test]
fn protocol_errors_read_as_before() {
    assert_eq!(ProtocolError::ValidityWindow.message(), "contact validity window");
    assert_eq!(ProtocolError::InvalidAddresses.message(), "invalid contact addresses");
    assert_eq!(ProtocolError::UnsupportedAddress.message(), "unsupported contact address");
    assert_eq!(ProtocolError::TooManyAddresses.message(), "too many contact addresses");
    assert_eq!(ProtocolError::ContactTooLarge.message(), "contact too large");
    assert_eq!(ProtocolError::InvalidOrigin.message(), "invalid discovery origin");
    assert_eq!(ProtocolError::ResponseTooLarge.message(), "discovery response too large");
}

#[test]
fn accepted_record_is_the_encoding_of_its_claim() {
    let texts: [&[u8]; 2] = [b"relay:http://r.example/", b"ip:[::2]:9"];
    let mut wire = body(&[4, 4, 4], 10, 20, 99, &texts);
    let signed_len = wire.len();
    wire.extend_from_slice(b"sig");
    let claim = ContactClaim::parse(&wire, 15).unwrap();
    let contact = SignedContact::verify(claim.clone(), ID, Ok(ID)).unwrap();
    let again = SignedContact::signing_input(
        claim.public_key(),
        contact.sequence(),
        contact.issued(),
        contact.expires(),
        contact.addresses(),
    )
    .unwrap();
    assert_eq!(again, &wire[..signed_len]);
    assert_eq!(claim.signature(), b"sig");
}

#[test]
fn copies_keep_the_record() {
    let record = SignedContact::sign(ID, &[1, 2], 5, 1000, 1100, one_address(), &[0xaa]).unwrap();
    let copy = record.clone();
    assert_eq!(copy.id(), record.id());
    assert_eq!(copy.issued(), 1000);
    assert_eq!(copy.expires(), 1100);
    assert_eq!(copy.sequence(), 5);
    assert_eq!(copy.addresses(), record.addresses());
    assert_eq!(copy.as_bytes(), record.as_bytes());
    let claim = ContactClaim::parse(record.as_bytes(), 1001).unwrap();
    let claim_copy = claim.clone();
    assert_eq!(claim_copy.public_key(), &[1, 2]);
    assert_eq!(claim_copy.signature(), &[0xaa]);
    assert_eq!(claim_copy.signed_message(), claim.signed_message());
}

#[test]
fn window_check_alone() {
    let window = Err(Error::Protocol(ProtocolError::ValidityWindow));
    assert_eq!(validate_window(1000, 1100, 1000), Ok(()));
    assert_eq!(validate_window(1000, 1100, 970), Ok(()));
    assert_eq!(validate_window(1000, 1100, 969), window);
    assert_eq!(validate_window(1000, 4601, 1000), window);
    assert_eq!(validate_window(u64::MAX - 10, u64::MAX, u64::MAX - 40), Ok(()));
}

#[test]
fn unsupported_address_error_order() {
    assert_eq!(unsupported_set_error(1000, 5000, 1000, 1), Error::Protocol(ProtocolError::ValidityWindow));
    assert_eq!(unsupported_set_error(1000, 1100, 1000, 0), Error::Protocol(ProtocolError::InvalidAddresses));
    assert_eq!(unsupported_set_error(1000, 1100, 1000, 33), Error::Protocol(ProtocolError::InvalidAddresses));
    assert_eq!(unsupported_set_error(1000, 1100, 1000, 2), Error::Protocol(ProtocolError::UnsupportedAddress));
    let set = set_of(vec![ip("10.0.0.1:1"), ip("0.0.0.0:1")]);
    assert_eq!(validate(1000, 1100, 1000, &set), Err(unsupported_set_error(1000, 1100, 1000, 2)));
}
