//! Routing hints carried by a contact record: IP socket addresses and relay
//! URLs, their canonical text form, their order, and which of them a record
//! may carry.
use vstd::prelude::*;
use vstd::string::StringSliceAdditionalSpecFns;
use vstd::utf8::{decode_utf8, encode_utf8, valid_utf8};

verus! {

/// An IP socket address: the address as an integer (most significant byte
/// first), the port, and for IPv6 the flow label and scope id.
#[derive(Clone, Copy, Debug, PartialEq, Eq, Structural)]
#[allow(inconsistent_fields)]
pub enum IpEndpoint {
    V4 { ip: u32, port: u16 },
    V6 { ip: u128, port: u16, flowinfo: u32, scope_id: u32 },
}

/// A relay server URL, held as the bytes of its serialization and of its scheme.
#[derive(Debug, PartialEq, Eq)]
pub struct RelayEndpoint {
    url: Vec<u8>,
    scheme: Vec<u8>,
}

/// A routing hint: a relay server or a direct IP socket address.
#[derive(Debug, PartialEq, Eq)]
pub enum ContactAddress {
    Relay(RelayEndpoint),
    Ip(IpEndpoint),
}

/// The mathematical value of a [`ContactAddress`].
pub enum AddressView {
    Relay { url: Seq<u8>, scheme: Seq<u8> },
    Ip(IpEndpoint),
}

impl View for ContactAddress {
    type V = AddressView;

    closed spec fn view(&self) -> AddressView {
        match self {
            ContactAddress::Relay(r) => AddressView::Relay { url: r.url@, scheme: r.scheme@ },
            ContactAddress::Ip(e) => AddressView::Ip(*e),
        }
    }
}

// ---------------------------------------------------------------------------
// Results of the outside parsers and formatters.
/// The socket address that `core::net::SocketAddr`'s `FromStr` reads from a text.
pub uninterp spec fn socket_addr_parse(text: Seq<char>) -> Option<IpEndpoint>;

/// The text that `core::net::SocketAddr`'s `Display` writes for a socket address.
pub uninterp spec fn socket_addr_display(e: IpEndpoint) -> Seq<char>;

/// The serialization and the scheme, as bytes, of the URL that
/// `iroh_base::RelayUrl`'s `FromStr` reads from a text.
pub uninterp spec fn relay_url_parse(text: Seq<char>) -> Option<(Seq<u8>, Seq<u8>)>;

/// `core::str::from_utf8`: succeeds exactly on valid UTF-8, and the text it
/// gives back is made of the very same bytes (as its documentation states).
#[verifier::external_body]
pub(crate) fn utf8_text(bytes: &[u8]) -> (r: Option<&str>)
    ensures
        r is Some <==> valid_utf8(bytes@),
        r matches Some(s) ==> s.spec_bytes() == bytes@,
{
    core::str::from_utf8(bytes).ok()
}

/// Parses a socket address with `core::net::SocketAddr`'s `FromStr`; the
/// result is named by [`socket_addr_parse`] and no more is claimed of it.
#[verifier::external_body]
fn parse_socket_addr(text: &str) -> (r: Option<IpEndpoint>)
    ensures
        r == socket_addr_parse(text@),
{
    match text.parse::<core::net::SocketAddr>() {
        Ok(core::net::SocketAddr::V4(a)) => Some(IpEndpoint::V4 { ip: a.ip().to_bits(), port: a.port() }),
        Ok(core::net::SocketAddr::V6(a)) => Some(
            IpEndpoint::V6 { ip: a.ip().to_bits(), port: a.port(), flowinfo: a.flowinfo(), scope_id: a.scope_id() },
        ),
        Err(_) => None,
    }
}

/// Formats a socket address with `core::net::SocketAddr`'s `Display`; the
/// text is named by [`socket_addr_display`] and no more is claimed of it.
#[verifier::external_body]
fn format_socket_addr(e: &IpEndpoint) -> (r: String)
    ensures
        r@ == socket_addr_display(*e),
{
    let addr = match *e {
        IpEndpoint::V4 { ip, port } => core::net::SocketAddr::V4(
            core::net::SocketAddrV4::new(core::net::Ipv4Addr::from_bits(ip), port),
        ),
        IpEndpoint::V6 { ip, port, flowinfo, scope_id } => core::net::SocketAddr::V6(
            core::net::SocketAddrV6::new(core::net::Ipv6Addr::from_bits(ip), port, flowinfo, scope_id),
        ),
    };
    addr.to_string()
}

/// Parses a relay URL with `iroh_base::RelayUrl`'s `FromStr` (that is,
/// `url::Url::parse`) and hands back the bytes of `as_str()` and of `scheme()`;
/// the result is named by [`relay_url_parse`] and no more is claimed of it.
#[verifier::external_body]
fn parse_relay_url(text: &str) -> (r: Option<RelayEndpoint>)
    ensures
        r is Some <==> relay_url_parse(text@) is Some,
        r matches Some(u) ==> relay_url_parse(text@) == Some((u.url@, u.scheme@)),
{
    match text.parse::<iroh_base::RelayUrl>() {
        Ok(u) => Some(RelayEndpoint { url: u.as_str().as_bytes().to_vec(), scheme: u.scheme().as_bytes().to_vec() }),
        Err(_) => None,
    }
}

// ---------------------------------------------------------------------------
// Canonical text.
/// `ip:` as bytes.
pub open spec fn ip_prefix() -> Seq<u8> {
    seq![105u8, 112u8, 58u8]
}

/// `relay:` as bytes.
pub open spec fn relay_prefix() -> Seq<u8> {
    seq![114u8, 101u8, 108u8, 97u8, 121u8, 58u8]
}

/// The text of an address as `iroh_base::TransportAddr`'s `Display` writes it:
/// `relay:` and the URL's serialization, or `ip:` and the socket address.
pub open spec fn canonical_text(a: AddressView) -> Seq<u8> {
    match a {
        AddressView::Relay { url, scheme } => relay_prefix() + url,
        AddressView::Ip(e) => ip_prefix() + encode_utf8(socket_addr_display(e)),
    }
}

/// The address that a record's address text stands for, if it is one: the
/// text must start with `ip:` or `relay:`, the rest must be UTF-8 that the
/// matching parser accepts, and the parsed address must be written back as
/// exactly the same text.
pub open spec fn interpret_text(t: Seq<u8>) -> Option<AddressView> {
    if t.len() >= 3 && t.take(3) == ip_prefix() {
        let rest = t.skip(3);
        if !valid_utf8(rest) {
            None
        } else {
            match socket_addr_parse(decode_utf8(rest)) {
                Some(e) => if t == canonical_text(AddressView::Ip(e)) {
                    Some(AddressView::Ip(e))
                } else {
                    None
                },
                None => None,
            }
        }
    } else if t.len() >= 6 && t.take(6) == relay_prefix() {
        let rest = t.skip(6);
        if !valid_utf8(rest) {
            None
        } else {
            match relay_url_parse(decode_utf8(rest)) {
                Some((url, scheme)) => {
                    let a = AddressView::Relay { url, scheme };
                    if t == canonical_text(a) {
                        Some(a)
                    } else {
                        None
                    }
                },
                None => None,
            }
        }
    } else {
        None
    }
}

// ---------------------------------------------------------------------------
// Order.
/// Lexicographic order of byte strings (the order of `str`).
pub open spec fn bytes_lt(a: Seq<u8>, b: Seq<u8>) -> bool
    decreases a.len(),
{
    if a.len() == 0 {
        b.len() > 0
    } else if b.len() == 0 {
        false
    } else if a[0] != b[0] {
        a[0] < b[0]
    } else {
        bytes_lt(a.drop_first(), b.drop_first())
    }
}

/// Order of socket addresses: IPv4 first, then by address, port, flow label
/// and scope id.
pub open spec fn ip_lt(a: IpEndpoint, b: IpEndpoint) -> bool {
    match (a, b) {
        (IpEndpoint::V4 { .. }, IpEndpoint::V6 { .. }) => true,
        (IpEndpoint::V6 { .. }, IpEndpoint::V4 { .. }) => false,
        (IpEndpoint::V4 { ip: i1, port: p1 }, IpEndpoint::V4 { ip: i2, port: p2 }) => i1 < i2 || (i1
            == i2 && p1 < p2),
        (
            IpEndpoint::V6 { ip: i1, port: p1, flowinfo: f1, scope_id: s1 },
            IpEndpoint::V6 { ip: i2, port: p2, flowinfo: f2, scope_id: s2 },
        ) => i1 < i2 || (i1 == i2 && (p1 < p2 || (p1 == p2 && (f1 < f2 || (f1 == f2 && s1 < s2))))),
    }
}

/// Order of addresses, that of `iroh_base::TransportAddr`: relays first, by
/// URL serialization (the scheme, which the serialization begins with, only
/// breaks ties between values that no URL parser hands out), then IP socket
/// addresses.
pub open spec fn addr_lt(a: AddressView, b: AddressView) -> bool {
    match (a, b) {
        (AddressView::Relay { .. }, AddressView::Ip(_)) => true,
        (AddressView::Ip(_), AddressView::Relay { .. }) => false,
        (AddressView::Relay { url: u1, scheme: s1 }, AddressView::Relay { url: u2, scheme: s2 }) =>
            bytes_lt(u1, u2) || (u1 == u2 && bytes_lt(s1, s2)),
        (AddressView::Ip(e1), AddressView::Ip(e2)) => ip_lt(e1, e2),
    }
}

pub proof fn lemma_bytes_lt_irreflexive(a: Seq<u8>)
    ensures
        !bytes_lt(a, a),
    decreases a.len(),
{
    if a.len() > 0 {
        lemma_bytes_lt_irreflexive(a.drop_first());
    }
}

pub proof fn lemma_bytes_lt_transitive(a: Seq<u8>, b: Seq<u8>, c: Seq<u8>)
    requires
        bytes_lt(a, b),
        bytes_lt(b, c),
    ensures
        bytes_lt(a, c),
    decreases a.len(),
{
    if a.len() > 0 && b.len() > 0 && c.len() > 0 && a[0] == b[0] && b[0] == c[0] {
        lemma_bytes_lt_transitive(a.drop_first(), b.drop_first(), c.drop_first());
    }
}

pub proof fn lemma_bytes_lt_total(a: Seq<u8>, b: Seq<u8>)
    ensures
        bytes_lt(a, b) || bytes_lt(b, a) || a == b,
    decreases a.len(),
{
    if a.len() > 0 && b.len() > 0 && a[0] == b[0] {
        lemma_bytes_lt_total(a.drop_first(), b.drop_first());
        if a.drop_first() == b.drop_first() {
            assert(a =~= seq![a[0]] + a.drop_first());
            assert(b =~= seq![b[0]] + b.drop_first());
        }
    } else if a.len() == 0 && b.len() == 0 {
        assert(a =~= b);
    }
}

pub proof fn lemma_bytes_lt_asymmetric(a: Seq<u8>, b: Seq<u8>)
    requires
        bytes_lt(a, b),
    ensures
        !bytes_lt(b, a),
{
    if bytes_lt(b, a) {
        lemma_bytes_lt_transitive(a, b, a);
        lemma_bytes_lt_irreflexive(a);
    }
}

/// The order of addresses is a strict total order.
pub proof fn lemma_addr_lt_order(a: AddressView, b: AddressView, c: AddressView)
    ensures
        !addr_lt(a, a),
        addr_lt(a, b) ==> !addr_lt(b, a),
        addr_lt(a, b) && addr_lt(b, c) ==> addr_lt(a, c),
        addr_lt(a, b) || addr_lt(b, a) || a == b,
{
    match a {
        AddressView::Relay { url, scheme } => {
            lemma_bytes_lt_irreflexive(url);
            lemma_bytes_lt_irreflexive(scheme);
        },
        _ => {},
    }
    match (a, b) {
        (AddressView::Relay { url: u1, scheme: s1 }, AddressView::Relay { url: u2, scheme: s2 }) => {
            lemma_bytes_lt_total(u1, u2);
            lemma_bytes_lt_total(s1, s2);
            if bytes_lt(u1, u2) {
                lemma_bytes_lt_asymmetric(u1, u2);
            }
            if bytes_lt(s1, s2) {
                lemma_bytes_lt_asymmetric(s1, s2);
            }
            lemma_bytes_lt_irreflexive(u1);
        },
        _ => {},
    }
    match (a, b, c) {
        (
            AddressView::Relay { url: u1, scheme: s1 },
            AddressView::Relay { url: u2, scheme: s2 },
            AddressView::Relay { url: u3, scheme: s3 },
        ) => {
            if bytes_lt(u1, u2) && bytes_lt(u2, u3) {
                lemma_bytes_lt_transitive(u1, u2, u3);
            }
            if bytes_lt(s1, s2) && bytes_lt(s2, s3) {
                lemma_bytes_lt_transitive(s1, s2, s3);
            }
        },
        _ => {},
    }
}

/// `s` is strictly increasing in the order of addresses.
pub open spec fn strictly_increasing(s: Seq<AddressView>) -> bool {
    forall|i: int, j: int| 0 <= i < j < s.len() ==> #[trigger] addr_lt(s[i], s[j])
}

// ---------------------------------------------------------------------------
// Policy.
/// `https` as bytes.
pub open spec fn https_scheme() -> Seq<u8> {
    seq![104u8, 116u8, 116u8, 112u8, 115u8]
}

/// `http` as bytes.
pub open spec fn http_scheme() -> Seq<u8> {
    seq![104u8, 116u8, 116u8, 112u8]
}

/// Longest relay URL serialization, in bytes, that a record may carry.
pub const MAX_RELAY_URL_LEN: usize = 2048;

/// The IP address of an endpoint is unspecified (`0.0.0.0` or `::`).
pub open spec fn ip_unspecified(e: IpEndpoint) -> bool {
    match e {
        IpEndpoint::V4 { ip, .. } => ip == 0,
        IpEndpoint::V6 { ip, .. } => ip == 0,
    }
}

/// The IP address of an endpoint is multicast (`224.0.0.0/4` or `ff00::/8`).
pub open spec fn ip_multicast(e: IpEndpoint) -> bool {
    match e {
        IpEndpoint::V4 { ip, .. } => 0xe000_0000u32 <= ip <= 0xefff_ffffu32,
        IpEndpoint::V6 { ip, .. } => ip >= 0xff00_0000_0000_0000_0000_0000_0000_0000u128,
    }
}

/// The port of an endpoint.
pub open spec fn ip_port(e: IpEndpoint) -> u16 {
    match e {
        IpEndpoint::V4 { port, .. } => port,
        IpEndpoint::V6 { port, .. } => port,
    }
}

/// An address that a record may carry: an IP socket address that is neither
/// unspecified nor multicast and has a port, or an `http`/`https` relay URL of
/// at most [`MAX_RELAY_URL_LEN`] bytes.
pub open spec fn address_supported(a: AddressView) -> bool {
    match a {
        AddressView::Ip(e) => !ip_unspecified(e) && !ip_multicast(e) && ip_port(e) != 0,
        AddressView::Relay { url, scheme } => (scheme == https_scheme() || scheme == http_scheme())
            && url.len() <= MAX_RELAY_URL_LEN,
    }
}

// ---------------------------------------------------------------------------
// Executable operations.
/// Whether two byte strings are equal.
pub fn bytes_equal(a: &[u8], b: &[u8]) -> (r: bool)
    ensures
        r == (a@ == b@),
{
    if a.len() != b.len() {
        return false;
    }
    let mut i: usize = 0;
    while i < a.len()
        invariant
            a.len() == b.len(),
            i <= a.len(),
            forall|k: int| 0 <= k < i ==> a@[k] == b@[k],
        decreases a.len() - i,
    {
        if a[i] != b[i] {
            return false;
        }
        i = i + 1;
    }
    assert(a@ =~= b@);
    true
}

/// Whether `a` comes before `b` in lexicographic byte order.
pub fn bytes_less(a: &[u8], b: &[u8]) -> (r: bool)
    ensures
        r == bytes_lt(a@, b@),
{
    let mut i: usize = 0;
    assert(a@.skip(0) =~= a@);
    assert(b@.skip(0) =~= b@);
    while i < a.len() && i < b.len()
        invariant
            i <= a.len(),
            i <= b.len(),
            bytes_lt(a@, b@) == bytes_lt(a@.skip(i as int), b@.skip(i as int)),
        decreases a.len() - i,
    {
        if a[i] != b[i] {
            return a[i] < b[i];
        }
        assert(a@.skip(i as int).drop_first() =~= a@.skip(i + 1));
        assert(b@.skip(i as int).drop_first() =~= b@.skip(i + 1));
        i = i + 1;
    }
    a.len() < b.len()
}

/// Whether `a` comes before `b` in the order of socket addresses.
pub fn ip_less(a: &IpEndpoint, b: &IpEndpoint) -> (r: bool)
    ensures
        r == ip_lt(*a, *b),
{
    match (a, b) {
        (IpEndpoint::V4 { .. }, IpEndpoint::V6 { .. }) => true,
        (IpEndpoint::V6 { .. }, IpEndpoint::V4 { .. }) => false,
        (IpEndpoint::V4 { ip: i1, port: p1 }, IpEndpoint::V4 { ip: i2, port: p2 }) => *i1 < *i2 || (
        *i1 == *i2 && *p1 < *p2),
        (
            IpEndpoint::V6 { ip: i1, port: p1, flowinfo: f1, scope_id: s1 },
            IpEndpoint::V6 { ip: i2, port: p2, flowinfo: f2, scope_id: s2 },
        ) => *i1 < *i2 || (*i1 == *i2 && (*p1 < *p2 || (*p1 == *p2 && (*f1 < *f2 || (*f1 == *f2
            && *s1 < *s2))))),
    }
}

impl RelayEndpoint {
    /// The bytes of the URL's serialization.
    pub fn url(&self) -> (r: &[u8])
        ensures
            r@ == self.url_view(),
    {
        self.url.as_slice()
    }

    /// The bytes of the URL's scheme.
    pub fn scheme(&self) -> (r: &[u8])
        ensures
            r@ == self.scheme_view(),
    {
        self.scheme.as_slice()
    }

    pub closed spec fn url_view(&self) -> Seq<u8> {
        self.url@
    }

    pub closed spec fn scheme_view(&self) -> Seq<u8> {
        self.scheme@
    }

    /// A relay address's value is made of its URL and scheme bytes.
    pub proof fn lemma_view(r: RelayEndpoint)
        ensures
            ContactAddress::Relay(r)@ == (AddressView::Relay {
                url: r.url_view(),
                scheme: r.scheme_view(),
            }),
    {
    }
}

impl ContactAddress {
    /// A direct IP socket address.
    pub fn ip(e: IpEndpoint) -> (r: ContactAddress)
        ensures
            r@ == AddressView::Ip(e),
    {
        ContactAddress::Ip(e)
    }

    /// A relay address, if `url` is a URL (as `iroh_base::RelayUrl` parses it).
    pub fn relay(url: &str) -> (r: Option<ContactAddress>)
        ensures
            r is Some <==> relay_url_parse(url@) is Some,
            r matches Some(a) ==> relay_url_parse(url@) matches Some((u, s)) && a@
                == (AddressView::Relay { url: u, scheme: s }),
    {
        match parse_relay_url(url) {
            Some(u) => Some(ContactAddress::Relay(u)),
            None => None,
        }
    }

    /// Whether `self` comes before `other` in the order of addresses.
    pub fn precedes(&self, other: &ContactAddress) -> (r: bool)
        ensures
            r == addr_lt(self@, other@),
    {
        match (self, other) {
            (ContactAddress::Relay(_), ContactAddress::Ip(_)) => true,
            (ContactAddress::Ip(_), ContactAddress::Relay(_)) => false,
            (ContactAddress::Relay(u1), ContactAddress::Relay(u2)) => {
                bytes_less(u1.url.as_slice(), u2.url.as_slice()) || (bytes_equal(
                    u1.url.as_slice(),
                    u2.url.as_slice(),
                ) && bytes_less(u1.scheme.as_slice(), u2.scheme.as_slice()))
            },
            (ContactAddress::Ip(e1), ContactAddress::Ip(e2)) => ip_less(e1, e2),
        }
    }

    /// Whether this address may be carried by a record.
    pub fn is_supported(&self) -> (r: bool)
        ensures
            r == address_supported(self@),
    {
        match self {
            ContactAddress::Ip(e) => {
                let (unspecified, multicast, port) = match e {
                    IpEndpoint::V4 { ip, port } => (*ip == 0, 0xe000_0000u32 <= *ip && *ip
                        <= 0xefff_ffffu32, *port),
                    IpEndpoint::V6 { ip, port, .. } => (*ip == 0, *ip
                        >= 0xff00_0000_0000_0000_0000_0000_0000_0000u128, *port),
                };
                !unspecified && !multicast && port != 0
            },
            ContactAddress::Relay(u) => {
                let https: [u8; 5] = [104u8, 116u8, 116u8, 112u8, 115u8];
                let http: [u8; 4] = [104u8, 116u8, 116u8, 112u8];
                assert(https@ =~= https_scheme());
                assert(http@ =~= http_scheme());
                (bytes_equal(u.scheme.as_slice(), https.as_slice()) || bytes_equal(
                    u.scheme.as_slice(),
                    http.as_slice(),
                )) && u.url.len() <= MAX_RELAY_URL_LEN
            },
        }
    }

    /// The canonical text of this address, as bytes.
    pub fn to_text(&self) -> (r: Vec<u8>)
        ensures
            r@ == canonical_text(self@),
    {
        match self {
            ContactAddress::Relay(u) => {
                let mut out: Vec<u8> = Vec::new();
                out.push(114u8);
                out.push(101u8);
                out.push(108u8);
                out.push(97u8);
                out.push(121u8);
                out.push(58u8);
                crate::wire::push_all(&mut out, u.url.as_slice());
                assert(out@ =~= canonical_text(self@));
                out
            },
            ContactAddress::Ip(e) => {
                let text = format_socket_addr(e);
                let mut out: Vec<u8> = Vec::new();
                out.push(105u8);
                out.push(112u8);
                out.push(58u8);
                crate::wire::push_all(&mut out, text.as_str().as_bytes());
                assert(out@ =~= canonical_text(self@));
                out
            },
        }
    }

    /// Reads a record's address text: the address it stands for, if it is one.
    pub fn from_text(t: &[u8]) -> (r: Option<ContactAddress>)
        ensures
            r is Some <==> interpret_text(t@) is Some,
            r matches Some(a) ==> interpret_text(t@) == Some(a@),
    {
        let ip: [u8; 3] = [105u8, 112u8, 58u8];
        let relay: [u8; 6] = [114u8, 101u8, 108u8, 97u8, 121u8, 58u8];
        assert(ip@ =~= ip_prefix());
        assert(relay@ =~= relay_prefix());
        if t.len() >= 3 && bytes_equal(&t[0..3], ip.as_slice()) {
            assert(t@.subrange(0, 3) =~= t@.take(3));
            let rest = &t[3..t.len()];
            assert(rest@ =~= t@.skip(3));
            let text = match utf8_text(rest) {
                Some(s) => s,
                None => return None,
            };
            proof {
                vstd::utf8::encode_utf8_decode_utf8(text@);
            }
            let e = match parse_socket_addr(text) {
                Some(e) => e,
                None => return None,
            };
            let a = ContactAddress::Ip(e);
            let back = a.to_text();
            if bytes_equal(back.as_slice(), t) {
                Some(a)
            } else {
                None
            }
        } else if t.len() >= 6 && bytes_equal(&t[0..6], relay.as_slice()) {
            assert(t@.subrange(0, 6) =~= t@.take(6));
            assert(!(t@.take(3) == ip_prefix())) by {
                assert(t@.take(3)[0] == t@.take(6)[0]);
            }
            let rest = &t[6..t.len()];
            assert(rest@ =~= t@.skip(6));
            let text = match utf8_text(rest) {
                Some(s) => s,
                None => return None,
            };
            proof {
                vstd::utf8::encode_utf8_decode_utf8(text@);
            }
            let u = match parse_relay_url(text) {
                Some(u) => u,
                None => return None,
            };
            let a = ContactAddress::Relay(u);
            let back = a.to_text();
            if bytes_equal(back.as_slice(), t) {
                Some(a)
            } else {
                None
            }
        } else {
            proof {
                if t.len() >= 3 && t@.take(3) == ip_prefix() {
                    assert(t@.subrange(0, 3) =~= t@.take(3));
                }
                if t.len() >= 6 && t@.take(6) == relay_prefix() {
                    assert(t@.subrange(0, 6) =~= t@.take(6));
                }
            }
            None
        }
    }
}

} // verus!

verus! {

/// A set of addresses, kept in increasing order without repetition: the
/// order in which a record lists them.
#[derive(Debug, PartialEq, Eq)]
pub struct AddressSet {
    items: Vec<ContactAddress>,
}

impl View for AddressSet {
    type V = Seq<AddressView>;

    closed spec fn view(&self) -> Seq<AddressView> {
        self.items@.map_values(|a: ContactAddress| a@)
    }
}

impl AddressSet {
    /// The set is in strictly increasing order.
    pub open spec fn wf(&self) -> bool {
        strictly_increasing(self@)
    }

    /// The empty set.
    pub fn new() -> (r: AddressSet)
        ensures
            r.wf(),
            r@ == Seq::<AddressView>::empty(),
    {
        let r = AddressSet { items: Vec::new() };
        assert(r@ =~= Seq::<AddressView>::empty());
        r
    }

    /// Number of addresses.
    pub fn len(&self) -> (r: usize)
        ensures
            r == self@.len(),
    {
        self.items.len()
    }

    /// Whether the set is empty.
    pub fn is_empty(&self) -> (r: bool)
        ensures
            r == (self@.len() == 0),
    {
        self.items.len() == 0
    }

    /// The `i`-th address in increasing order.
    pub fn get(&self, i: usize) -> (r: &ContactAddress)
        requires
            i < self@.len(),
        ensures
            r@ == self@[i as int],
    {
        &self.items[i]
    }

    /// Adds an address. Returns whether it was absent; the set then holds it
    /// in its place in the order, and nothing else changes.
    pub fn insert(&mut self, a: ContactAddress) -> (r: bool)
        requires
            old(self).wf(),
        ensures
            final(self).wf(),
            r == !old(self)@.contains(a@),
            final(self)@.to_set() == old(self)@.to_set().insert(a@),
            !r ==> final(self)@ == old(self)@,
            r ==> exists|p: int|
                0 <= p <= old(self)@.len() && final(self)@ == old(self)@.insert(p, a@),
    {
        let n = self.items.len();
        let mut p: usize = 0;
        while p < n
            invariant
                n == self.items@.len(),
                self == old(self),
                p <= n,
                forall|k: int| 0 <= k < p ==> #[trigger] addr_lt(self@[k], a@),
            ensures
                p < n ==> !addr_lt(self@[p as int], a@),
            decreases n - p,
        {
            if !self.items[p].precedes(&a) {
                break;
            }
            p = p + 1;
        }
        proof {
            assert forall|k: int| 0 <= k < n implies #[trigger] self@[k] == self.items@[k]@ by {}
        }
        if p < n && !a.precedes(&self.items[p]) {
            proof {
                lemma_addr_lt_order(self@[p as int], a@, a@);
                assert(self@[p as int] == a@);
                assert(self@.contains(a@));
                assert(self@.to_set().insert(a@) =~= self@.to_set());
            }
            return false;
        }
        let ghost old_view = self@;
        proof {
            assert forall|k: int| 0 <= k < n implies !(#[trigger] old_view[k] == a@) by {
                if k < p {
                    lemma_addr_lt_order(old_view[k], a@, a@);
                } else {
                    lemma_addr_lt_order(a@, old_view[p as int], old_view[k]);
                    lemma_addr_lt_order(old_view[k], a@, a@);
                    if k > p {
                        assert(addr_lt(old_view[p as int], old_view[k]));
                    }
                }
            }
        }
        self.items.insert(p, a);
        proof {
            let nv = self@;
            assert(nv =~= old_view.insert(p as int, a@));
            assert forall|i: int, j: int| 0 <= i < j < nv.len() implies #[trigger] addr_lt(nv[i], nv[j]) by {
                if j < p {
                    assert(nv[i] == old_view[i] && nv[j] == old_view[j]);
                } else if j == p {
                    assert(nv[i] == old_view[i]);
                } else if i == p {
                    assert(nv[j] == old_view[j - 1]);
                    if j - 1 > p {
                        assert(addr_lt(old_view[p as int], old_view[j - 1]));
                        lemma_addr_lt_order(a@, old_view[p as int], old_view[j - 1]);
                    }
                } else if i < p {
                    assert(nv[i] == old_view[i] && nv[j] == old_view[j - 1]);
                    lemma_addr_lt_order(old_view[i], a@, old_view[j - 1]);
                    if j - 1 > p {
                        assert(addr_lt(old_view[p as int], old_view[j - 1]));
                        lemma_addr_lt_order(a@, old_view[p as int], old_view[j - 1]);
                    }
                    lemma_addr_lt_order(old_view[i], a@, old_view[j - 1]);
                } else {
                    assert(nv[i] == old_view[i - 1] && nv[j] == old_view[j - 1]);
                }
            }
            assert(!old_view.contains(a@));
            assert(0 <= p <= old_view.len() && nv == old_view.insert(p as int, a@));
            assert(nv.to_set() =~= old_view.to_set().insert(a@)) by {
                assert forall|x: AddressView| nv.to_set().contains(x) <==> old_view.to_set().insert(a@).contains(x) by {
                    if nv.contains(x) {
                        let i = choose|i: int| 0 <= i < nv.len() && nv[i] == x;
                        if i < p {
                            assert(old_view[i] == x);
                        } else if i > p {
                            assert(old_view[i - 1] == x);
                        }
                    }
                    if old_view.contains(x) {
                        let i = choose|i: int| 0 <= i < old_view.len() && old_view[i] == x;
                        if i < p {
                            assert(nv[i] == x);
                        } else {
                            assert(nv[i + 1] == x);
                        }
                    }
                    if x == a@ {
                        assert(nv[p as int] == x);
                    }
                }
            }
        }
        true
    }
}

} // verus!

verus! {

impl AddressSet {
    /// Appends an address that comes after every address in the set.
    pub fn push(&mut self, a: ContactAddress)
        requires
            old(self).wf(),
            old(self)@.len() > 0 ==> addr_lt(old(self)@.last(), a@),
        ensures
            final(self).wf(),
            final(self)@ == old(self)@.push(a@),
    {
        let ghost old_view = self@;
        self.items.push(a);
        proof {
            let nv = self@;
            assert(nv =~= old_view.push(a@));
            assert forall|i: int, j: int| 0 <= i < j < nv.len() implies #[trigger] addr_lt(nv[i], nv[j]) by {
                if j == nv.len() - 1 && i < j - 1 {
                    assert(addr_lt(old_view[i], old_view[old_view.len() - 1]));
                    lemma_addr_lt_order(old_view[i], old_view.last(), a@);
                }
            }
        }
    }
}

} // verus!

verus! {

impl Clone for RelayEndpoint {
    /// A copy of the relay URL.
    fn clone(&self) -> (r: RelayEndpoint)
        ensures
            r.url_view() == self.url_view(),
            r.scheme_view() == self.scheme_view(),
    {
        RelayEndpoint {
            url: crate::wire::copy_bytes(self.url.as_slice()),
            scheme: crate::wire::copy_bytes(self.scheme.as_slice()),
        }
    }
}

impl Clone for ContactAddress {
    /// A copy of the address.
    fn clone(&self) -> (r: ContactAddress)
        ensures
            r@ == self@,
    {
        match self {
            ContactAddress::Relay(u) => ContactAddress::Relay(u.clone()),
            ContactAddress::Ip(e) => ContactAddress::Ip(*e),
        }
    }
}

impl Clone for AddressSet {
    /// A copy of the set.
    fn clone(&self) -> (r: AddressSet)
        ensures
            r@ == self@,
    {
        let n = self.items.len();
        let mut items: Vec<ContactAddress> = Vec::new();
        let mut i: usize = 0;
        while i < n
            invariant
                n == self.items@.len(),
                i <= n,
                items@.len() == i,
                forall|k: int| 0 <= k < i ==> #[trigger] items@[k]@ == self.items@[k]@,
            decreases n - i,
        {
            items.push(self.items[i].clone());
            i = i + 1;
        }
        let r = AddressSet { items };
        assert(r@ =~= self@);
        r
    }
}

} // verus!

verus! {

// ---------------------------------------------------------------------------
// Laws of the address policy, order and text.
/// An IPv4 address with a port is allowed exactly when the address is not
/// `0.0.0.0`, its first octet is not a multicast one (224 to 239), and the
/// port is not 0: every port from 1 to 65535 is allowed.
pub proof fn lemma_ipv4_policy(ip: u32, port: u16)
    ensures
        address_supported(AddressView::Ip(IpEndpoint::V4 { ip, port })) <==> (ip != 0 && !(224
            <= (ip as int) / 0x100_0000 <= 239) && (port as int) >= 1),
{
}

/// An IPv6 address with a port is allowed exactly when the address is not
/// `::`, its first octet is not `ff`, and the port is not 0.
pub proof fn lemma_ipv6_policy(ip: u128, port: u16, flowinfo: u32, scope_id: u32)
    ensures
        address_supported(AddressView::Ip(IpEndpoint::V6 { ip, port, flowinfo, scope_id })) <==> (
        ip != 0 && (ip as int) / 0x1_0000_0000_0000_0000_0000_0000_0000_00 != 0xff && (port as int)
            >= 1),
{
}

/// A relay URL is allowed exactly when its scheme is `http` or `https` and
/// its text is at most [`MAX_RELAY_URL_LEN`] bytes long.
pub proof fn lemma_relay_policy(url: Seq<u8>, scheme: Seq<u8>)
    ensures
        address_supported(AddressView::Relay { url, scheme }) <==> ((scheme =~= seq![
            104u8,
            116u8,
            116u8,
            112u8,
        ] || scheme =~= seq![104u8, 116u8, 116u8, 112u8, 115u8]) && url.len() <= 2048),
{
}

/// Comparing two-digit numbers in base `m`.
proof fn lemma_two_digits(a: int, x: int, b: int, y: int, m: int)
    requires
        0 <= x < m,
        0 <= y < m,
    ensures
        a * m + x < b * m + y <==> (a < b || (a == b && x < y)),
        a * m + x == b * m + y <==> (a == b && x == y),
{
    assert(a * m + x < b * m + y <==> (a < b || (a == b && x < y))) by (nonlinear_arith)
        requires
            0 <= x < m,
            0 <= y < m,
    ;
    assert(a * m + x == b * m + y <==> (a == b && x == y)) by (nonlinear_arith)
        requires
            0 <= x < m,
            0 <= y < m,
    ;
}

/// IPv4 socket addresses are ordered by the number `address * 65536 + port`:
/// first by address, then by port, as `core::net::SocketAddrV4` orders them.
pub proof fn lemma_ipv4_order(i1: u32, p1: u16, i2: u32, p2: u16)
    ensures
        addr_lt(
            AddressView::Ip(IpEndpoint::V4 { ip: i1, port: p1 }),
            AddressView::Ip(IpEndpoint::V4 { ip: i2, port: p2 }),
        ) <==> (i1 as int) * 0x1_0000 + (p1 as int) < (i2 as int) * 0x1_0000 + (p2 as int),
{
    lemma_two_digits((i1 as int), (p1 as int), (i2 as int), (p2 as int), 0x1_0000);
}

/// IPv6 socket addresses are ordered by the number
/// `((address * 2^16 + port) * 2^32 + flow label) * 2^32 + scope id`: first by
/// address, then port, flow label and scope id, as `core::net::SocketAddrV6`
/// orders them.
pub proof fn lemma_ipv6_order(
    i1: u128,
    p1: u16,
    f1: u32,
    s1: u32,
    i2: u128,
    p2: u16,
    f2: u32,
    s2: u32,
)
    ensures
        addr_lt(
            AddressView::Ip(IpEndpoint::V6 { ip: i1, port: p1, flowinfo: f1, scope_id: s1 }),
            AddressView::Ip(IpEndpoint::V6 { ip: i2, port: p2, flowinfo: f2, scope_id: s2 }),
        ) <==> (((i1 as int) * 0x1_0000 + (p1 as int)) * 0x1_0000_0000 + (f1 as int)) * 0x1_0000_0000
            + (s1 as int) < (((i2 as int) * 0x1_0000 + (p2 as int)) * 0x1_0000_0000 + (f2 as int))
            * 0x1_0000_0000 + (s2 as int),
{
    let a1 = (i1 as int) * 0x1_0000 + (p1 as int);
    let a2 = (i2 as int) * 0x1_0000 + (p2 as int);
    let c1 = a1 * 0x1_0000_0000 + (f1 as int);
    let c2 = a2 * 0x1_0000_0000 + (f2 as int);
    lemma_two_digits((i1 as int), (p1 as int), (i2 as int), (p2 as int), 0x1_0000);
    lemma_two_digits(a1, (f1 as int), a2, (f2 as int), 0x1_0000_0000);
    lemma_two_digits(c1, (s1 as int), c2, (s2 as int), 0x1_0000_0000);
}

/// Every IPv4 socket address comes before every IPv6 one, and every relay
/// comes before every socket address.
pub proof fn lemma_family_order(a: AddressView, b: AddressView)
    ensures
        (a matches AddressView::Relay { .. }) && (b matches AddressView::Ip(_)) ==> addr_lt(a, b)
            && !addr_lt(b, a),
        (a matches AddressView::Ip(IpEndpoint::V4 { .. })) && (b matches AddressView::Ip(
            IpEndpoint::V6 { .. },
        )) ==> addr_lt(a, b) && !addr_lt(b, a),
{
}

/// Byte strings are ordered by their first difference, a proper prefix
/// coming first.
pub proof fn lemma_bytes_lt_first_difference(a: Seq<u8>, b: Seq<u8>, k: int)
    requires
        0 <= k <= a.len(),
        k <= b.len(),
        a.take(k) == b.take(k),
    ensures
        k < a.len() && k < b.len() && a[k] != b[k] ==> (bytes_lt(a, b) <==> a[k] < b[k]),
        k == a.len() ==> (bytes_lt(a, b) <==> k < b.len()),
    decreases k,
{
    if k > 0 {
        assert(a[0] == a.take(k)[0]);
        assert(b[0] == b.take(k)[0]);
        assert(a.drop_first().take(k - 1) =~= a.take(k).drop_first());
        assert(b.drop_first().take(k - 1) =~= b.take(k).drop_first());
        lemma_bytes_lt_first_difference(a.drop_first(), b.drop_first(), k - 1);
    }
}

/// An IP address reads back from its canonical text as itself whenever
/// `core::net::SocketAddr` reads its own display back as the same address.
pub proof fn lemma_ip_text_reads_back(e: IpEndpoint)
    requires
        socket_addr_parse(socket_addr_display(e)) == Some(e),
    ensures
        interpret_text(canonical_text(AddressView::Ip(e))) == Some(AddressView::Ip(e)),
{
    let chars = socket_addr_display(e);
    let t = canonical_text(AddressView::Ip(e));
    assert(t.take(3) =~= ip_prefix());
    assert(t.skip(3) =~= encode_utf8(chars));
    vstd::utf8::encode_utf8_valid_utf8(chars);
    vstd::utf8::encode_utf8_decode_utf8(chars);
}

/// A relay address reads back from its canonical text as itself whenever its
/// URL text is UTF-8 that `iroh_base::RelayUrl` reads back as the same URL
/// and scheme.
pub proof fn lemma_relay_text_reads_back(url: Seq<u8>, scheme: Seq<u8>)
    requires
        valid_utf8(url),
        relay_url_parse(decode_utf8(url)) == Some((url, scheme)),
    ensures
        interpret_text(canonical_text(AddressView::Relay { url, scheme })) == Some(
            AddressView::Relay { url, scheme },
        ),
{
    let t = canonical_text(AddressView::Relay { url, scheme });
    assert(t.take(6) =~= relay_prefix());
    assert(t.skip(6) =~= url);
    assert(t.take(3) != ip_prefix()) by {
        assert(t.take(3)[0] == 114u8);
    }
}

} // verus!
