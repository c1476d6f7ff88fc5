use std::collections::BTreeSet;

use iroh_base::{RelayUrl, TransportAddr};
use iroh_identity::address::{AddressSet, ContactAddress, IpEndpoint};

fn from_transport(addr: &TransportAddr) -> ContactAddress {
    match addr {
        TransportAddr::Relay(url) => ContactAddress::relay(url.as_str()).unwrap(),
        TransportAddr::Ip(core::net::SocketAddr::V4(a)) => {
            ContactAddress::ip(IpEndpoint::V4 { ip: a.ip().to_bits(), port: a.port() })
        }
        TransportAddr::Ip(core::net::SocketAddr::V6(a)) => ContactAddress::ip(IpEndpoint::V6 {
            ip: a.ip().to_bits(),
            port: a.port(),
            flowinfo: a.flowinfo(),
            scope_id: a.scope_id(),
        }),
        _ => unreachable!(),
    }
}

fn samples() -> Vec<TransportAddr> {
    let mut v = Vec::new();
    for text in [
        "https://relay.example.com",
        "https://relay.example.com/a",
        "http://relay.example.com",
        "https://a.example.com:8443",
        "https://relay.example.co",
    ] {
        v.push(TransportAddr::Relay(text.parse::<RelayUrl>().unwrap()));
    }
    for text in [
        "127.0.0.1:1234",
        "127.0.0.1:80",
        "10.0.0.1:9999",
        "255.255.255.254:1",
        "[::1]:80",
        "[2001:db8::1]:443",
        "[2001:db8::1]:80",
        "[fe80::1%3]:80",
        "[fe80::1%2]:80",
    ] {
        v.push(TransportAddr::Ip(text.parse().unwrap()));
    }
    v
}

#[test]
fn address_order_matches_transport_addr_order() {
    let all = samples();
    for a in &all {
        for b in &all {
            assert_eq!(from_transport(a).precedes(&from_transport(b)), a < b, "{a} vs {b}");
        }
    }
    let sorted: Vec<TransportAddr> = all.iter().cloned().collect::<BTreeSet<_>>().into_iter().collect();
    let mut set = AddressSet::new();
    for a in all.iter().rev() {
        assert!(set.insert(from_transport(a)));
    }
    assert_eq!(set.len(), sorted.len());
    for (i, a) in sorted.iter().enumerate() {
        assert_eq!(set.get(i), &from_transport(a));
    }
}

#[test]
fn address_text_matches_transport_addr_display() {
    for a in samples() {
        let ours = from_transport(&a);
        assert_eq!(ours.to_text(), a.to_string().into_bytes());
        assert_eq!(ContactAddress::from_text(&ours.to_text()), Some(ours));
    }
}

#[test]
fn relay_keeps_serialization_and_scheme() {
    let relay = ContactAddress::relay("HTTPS://Relay.Example.com").unwrap();
    assert_eq!(relay.to_text(), b"relay:https://relay.example.com/".to_vec());
    match &relay {
        ContactAddress::Relay(r) => {
            assert_eq!(r.url(), b"https://relay.example.com/");
            assert_eq!(r.scheme(), b"https");
        }
        _ => unreachable!(),
    }
    assert!(ContactAddress::relay("no scheme here").is_none());
}

#[test]
fn from_text_reads_only_canonical_text() {
    assert_eq!(
        ContactAddress::from_text(b"ip:192.0.2.1:7"),
        Some(ContactAddress::ip(IpEndpoint::V4 { ip: 0xc000_0201, port: 7 }))
    );
    assert_eq!(
        ContactAddress::from_text(b"ip:[::1]:8"),
        Some(ContactAddress::ip(IpEndpoint::V6 { ip: 1, port: 8, flowinfo: 0, scope_id: 0 }))
    );
    assert_eq!(ContactAddress::from_text(b"ip:192.000.2.1:7"), None);
    assert_eq!(ContactAddress::from_text(b"ip:192.0.2.1:07"), None);
    assert_eq!(ContactAddress::from_text(b"ip: 192.0.2.1:7"), None);
    assert_eq!(ContactAddress::from_text(b"IP:192.0.2.1:7"), None);
    assert_eq!(ContactAddress::from_text(b"relay:https://relay.example.com"), None);
    assert_eq!(ContactAddress::from_text(b"relay:"), None);
    assert_eq!(ContactAddress::from_text(b""), None);
}

#[test]
fn insert_keeps_one_copy_in_order() {
    let a = ContactAddress::ip(IpEndpoint::V4 { ip: 5, port: 1 });
    let b = ContactAddress::ip(IpEndpoint::V4 { ip: 5, port: 2 });
    let c = ContactAddress::ip(IpEndpoint::V6 { ip: 0, port: 0, flowinfo: 0, scope_id: 0 });
    let r = ContactAddress::relay("http://z.example").unwrap();
    let mut set = AddressSet::new();
    assert!(set.is_empty());
    assert!(set.insert(c.clone()));
    assert!(set.insert(a.clone()));
    assert!(!set.insert(a.clone()));
    assert!(set.insert(r.clone()));
    assert!(set.insert(b.clone()));
    assert!(!set.insert(c.clone()));
    assert_eq!(set.len(), 4);
    assert_eq!(set.get(0), &r);
    assert_eq!(set.get(1), &a);
    assert_eq!(set.get(2), &b);
    assert_eq!(set.get(3), &c);
}

#[test]
fn supported_addresses() {
    assert!(ContactAddress::ip(IpEndpoint::V4 { ip: 0x7f00_0001, port: 1 }).is_supported());
    assert!(!ContactAddress::ip(IpEndpoint::V4 { ip: 0, port: 1 }).is_supported());
    assert!(!ContactAddress::ip(IpEndpoint::V4 { ip: 0xe000_0000, port: 1 }).is_supported());
    assert!(!ContactAddress::ip(IpEndpoint::V4 { ip: 0xefff_ffff, port: 1 }).is_supported());
    assert!(ContactAddress::ip(IpEndpoint::V4 { ip: 0xf000_0000, port: 1 }).is_supported());
    assert!(!ContactAddress::ip(IpEndpoint::V4 { ip: 1, port: 0 }).is_supported());
    assert!(!ContactAddress::ip(IpEndpoint::V6 { ip: 0xff00 << 112, port: 1, flowinfo: 0, scope_id: 0 }).is_supported());
    assert!(ContactAddress::ip(IpEndpoint::V6 { ip: 0xfe00 << 112, port: 1, flowinfo: 0, scope_id: 0 }).is_supported());
    assert!(ContactAddress::relay("https://r.example").unwrap().is_supported());
    assert!(ContactAddress::relay("http://r.example").unwrap().is_supported());
    assert!(!ContactAddress::relay("wss://r.example").unwrap().is_supported());
}
