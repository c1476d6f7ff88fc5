//! Signed contact records: the validity policy, the canonical encoding that
//! is signed, and the parser that checks a received record.
use vstd::prelude::*;

use crate::address::{
    addr_lt, address_supported, bytes_equal, canonical_text, interpret_text, lemma_addr_lt_order,
    strictly_increasing, AddressSet, AddressView, ContactAddress,
};
use crate::error::{Error, ProtocolError};
use crate::wire::{
    append, be16, be16_value, be64, field, field_bytes, lemma_be16_canonical, lemma_be16_roundtrip,
    lemma_field_canonical, lemma_field_roundtrip, lemma_number_canonical, lemma_number_roundtrip,
    number, parse_field, parse_number, push_all, push_be16, push_be64, take, copy_bytes,
};

verus! {

/// Maximum signed contact wire size, including a PQ public key and signature.
pub const MAX_CONTACT_SIZE: usize = 32768;

/// Largest public identity, in bytes, that a received record may embed.
pub const MAX_PUBLIC_KEY_LEN: usize = 8192;

/// Largest number of addresses that a record may carry.
pub const MAX_ADDRESSES: usize = 32;

/// Longest validity window of a record, in seconds.
pub const MAX_VALIDITY_SECS: u64 = 3600;

/// How far in the future, in seconds, a record's start may lie.
pub const MAX_CLOCK_SKEW_SECS: u64 = 30;

/// Length of the record's leading magic bytes.
pub const MAGIC_LEN: usize = 23;

/// An identity, as the identity layer names it: a versioned digest.
#[derive(Clone, Copy, Debug, PartialEq, Eq, Hash)]
pub enum PeerId {
    V1([u8; 48]),
}

impl PeerId {
    /// Whether two identities are the same.
    pub fn same(&self, other: &PeerId) -> (r: bool)
        ensures
            r == (*self == *other),
    {
        broadcast use vstd::array::group_array_axioms;

        let (PeerId::V1(a), PeerId::V1(b)) = (self, other);
        let mut i: usize = 0;
        while i < 48
            invariant
                i <= 48,
                *self == PeerId::V1(*a),
                *other == PeerId::V1(*b),
                forall|k: int| 0 <= k < i ==> a@[k] == b@[k],
            decreases 48 - i,
        {
            if a[i] != b[i] {
                assert(a@[i as int] != b@[i as int]);
                return false;
            }
            i = i + 1;
        }
        assert(a@ =~= b@);
        assert(*a == *b);
        true
    }
}

/// The bytes `iroh signed contact v1\0` that every record starts with.
#[verifier::opaque]
pub open spec fn magic() -> Seq<u8> {
    seq![
        105u8, 114u8, 111u8, 104u8, 32u8, 115u8, 105u8, 103u8, 110u8, 101u8, 100u8, 32u8, 99u8, 111u8,
        110u8, 116u8, 97u8, 99u8, 116u8, 32u8, 118u8, 49u8, 0u8,
    ]
}

/// The magic bytes.
pub fn magic_bytes() -> (r: Vec<u8>)
    ensures
        r@ == magic(),
{
    let r: Vec<u8> = vec![
        105u8, 114u8, 111u8, 104u8, 32u8, 115u8, 105u8, 103u8, 110u8, 101u8, 100u8, 32u8, 99u8, 111u8,
        110u8, 116u8, 97u8, 99u8, 116u8, 32u8, 118u8, 49u8, 0u8,
    ];
    assert(r@ =~= magic()) by {
        reveal(magic);
    }
    r
}

/// The magic is [`MAGIC_LEN`] bytes long.
pub proof fn lemma_magic_len()
    ensures
        magic().len() == MAGIC_LEN,
{
    reveal(magic);
}

// ---------------------------------------------------------------------------
// Policy.
/// The window from `issued` to `expires` is open at `now`: it is not empty,
/// lasts at most an hour, started at most 30 seconds after `now` and has not
/// ended at `now`.
pub open spec fn window_ok(issued: u64, expires: u64, now: u64) -> bool {
    &&& issued < expires
    &&& expires - issued <= MAX_VALIDITY_SECS
    &&& issued <= now + MAX_CLOCK_SKEW_SECS
    &&& now < expires
}

/// What [`validate`] answers.
pub open spec fn validate_spec(issued: u64, expires: u64, now: u64, addrs: Seq<AddressView>) -> Result<
    (),
    Error,
> {
    if !window_ok(issued, expires, now) {
        Err(Error::Protocol(ProtocolError::ValidityWindow))
    } else if addrs.len() == 0 || addrs.len() > MAX_ADDRESSES {
        Err(Error::Protocol(ProtocolError::InvalidAddresses))
    } else if exists|i: int| 0 <= i < addrs.len() && !#[trigger] address_supported(addrs[i]) {
        Err(Error::Protocol(ProtocolError::UnsupportedAddress))
    } else {
        Ok(())
    }
}

/// Checks a record's validity window at `now`.
pub fn validate_window(issued: u64, expires: u64, now: u64) -> (r: Result<(), Error>)
    ensures
        r == (if window_ok(issued, expires, now) {
            Ok::<(), Error>(())
        } else {
            Err(Error::Protocol(ProtocolError::ValidityWindow))
        }),
{
    if expires <= issued || expires - issued > MAX_VALIDITY_SECS || issued > now.saturating_add(
        MAX_CLOCK_SKEW_SECS,
    ) || expires <= now {
        return Err(Error::Protocol(ProtocolError::ValidityWindow));
    }
    Ok(())
}

/// The error that [`validate`] reports for `count` addresses of which at
/// least one is not supported: the window is checked first, then the number
/// of addresses.
pub fn unsupported_set_error(issued: u64, expires: u64, now: u64, count: usize) -> (e: Error)
    ensures
        e == (if !window_ok(issued, expires, now) {
            Error::Protocol(ProtocolError::ValidityWindow)
        } else if count == 0 || count > MAX_ADDRESSES {
            Error::Protocol(ProtocolError::InvalidAddresses)
        } else {
            Error::Protocol(ProtocolError::UnsupportedAddress)
        }),
        forall|addrs: Seq<AddressView>, i: int|
            addrs.len() == count && 0 <= i < count && !#[trigger] address_supported(addrs[i])
                ==> validate_spec(issued, expires, now, addrs) == Err::<(), Error>(e),
{
    match validate_window(issued, expires, now) {
        Err(e) => e,
        Ok(()) => if count == 0 || count > MAX_ADDRESSES {
            Error::Protocol(ProtocolError::InvalidAddresses)
        } else {
            Error::Protocol(ProtocolError::UnsupportedAddress)
        },
    }
}

/// Checks a record's validity window at `now` and its addresses: at least
/// one, at most [`MAX_ADDRESSES`], each of them supported.
pub fn validate(issued: u64, expires: u64, now: u64, addresses: &AddressSet) -> (r: Result<(), Error>)
    ensures
        r == validate_spec(issued, expires, now, addresses@),
{
    validate_window(issued, expires, now)?;
    if addresses.is_empty() || addresses.len() > MAX_ADDRESSES {
        return Err(Error::Protocol(ProtocolError::InvalidAddresses));
    }
    let n = addresses.len();
    let mut i: usize = 0;
    while i < n
        invariant
            n == addresses@.len(),
            0 < n <= MAX_ADDRESSES,
            window_ok(issued, expires, now),
            i <= n,
            forall|k: int| 0 <= k < i ==> #[trigger] address_supported(addresses@[k]),
        decreases n - i,
    {
        if !addresses.get(i).is_supported() {
            assert(!address_supported(addresses@[i as int]));
            return Err(Error::Protocol(ProtocolError::UnsupportedAddress));
        }
        i = i + 1;
    }
    Ok(())
}

// ---------------------------------------------------------------------------
// Encoding.
/// The address texts of a record, field after field.
pub open spec fn fields_concat(texts: Seq<Seq<u8>>) -> Seq<u8>
    decreases texts.len(),
{
    if texts.len() == 0 {
        Seq::empty()
    } else {
        fields_concat(texts.drop_last()) + field_bytes(texts.last())
    }
}

/// The canonical texts of addresses.
pub open spec fn address_texts(addrs: Seq<AddressView>) -> Seq<Seq<u8>> {
    addrs.map_values(|a: AddressView| canonical_text(a))
}

/// The signed part of a record: magic, public identity, start, end, sequence,
/// address count and the address texts.
pub open spec fn encode_body(
    public: Seq<u8>,
    issued: u64,
    expires: u64,
    sequence: u64,
    texts: Seq<Seq<u8>>,
) -> Seq<u8> {
    magic() + (field_bytes(public) + (window_bytes(issued, expires, sequence) + texts_bytes(texts)))
}

/// Start, end and sequence, big-endian.
pub open spec fn window_bytes(issued: u64, expires: u64, sequence: u64) -> Seq<u8> {
    be64(issued) + (be64(expires) + be64(sequence))
}

/// The address count and the address texts.
pub open spec fn texts_bytes(texts: Seq<Seq<u8>>) -> Seq<u8> {
    be16(texts.len() as u16) + fields_concat(texts)
}

/// Every text fits in a field.
pub open spec fn texts_fit(texts: Seq<Seq<u8>>) -> bool {
    forall|i: int| 0 <= i < texts.len() ==> (#[trigger] texts[i]).len() <= u16::MAX
}

/// What [`SignedContact::signing_input`] answers: the validity checks at the
/// start of the window, then the encoding, which refuses a field too long for
/// its length prefix.
pub open spec fn signing_input_spec(
    public: Seq<u8>,
    sequence: u64,
    issued: u64,
    expires: u64,
    addrs: Seq<AddressView>,
) -> Result<Seq<u8>, Error> {
    match validate_spec(issued, expires, issued, addrs) {
        Err(e) => Err(e),
        Ok(_) => if public.len() > u16::MAX || !texts_fit(address_texts(addrs)) {
            Err(Error::Encoding)
        } else {
            Ok(encode_body(public, issued, expires, sequence, address_texts(addrs)))
        },
    }
}

/// What [`SignedContact::sign`] answers: the signed part followed by the
/// signature, unless that is larger than [`MAX_CONTACT_SIZE`].
pub open spec fn sign_spec(
    public: Seq<u8>,
    sequence: u64,
    issued: u64,
    expires: u64,
    addrs: Seq<AddressView>,
    signature: Seq<u8>,
) -> Result<Seq<u8>, Error> {
    match signing_input_spec(public, sequence, issued, expires, addrs) {
        Err(e) => Err(e),
        Ok(body) => if body.len() + signature.len() > MAX_CONTACT_SIZE {
            Err(Error::Protocol(ProtocolError::ContactTooLarge))
        } else {
            Ok(body + signature)
        },
    }
}

/// Appends the address texts as fields.
fn append_addresses(out: &mut Vec<u8>, addresses: &AddressSet) -> (r: Result<(), Error>)
    ensures
        texts_fit(address_texts(addresses@)) ==> r is Ok && final(out)@ == old(out)@ + fields_concat(
            address_texts(addresses@),
        ),
        !texts_fit(address_texts(addresses@)) ==> r == Err::<(), Error>(Error::Encoding),
{
    let ghost texts = address_texts(addresses@);
    let n = addresses.len();
    let mut i: usize = 0;
    assert(texts.take(0) =~= Seq::<Seq<u8>>::empty());
    while i < n
        invariant
            n == addresses@.len(),
            texts == address_texts(addresses@),
            i <= n,
            texts_fit(texts.take(i as int)),
            out@ == old(out)@ + fields_concat(texts.take(i as int)),
        decreases n - i,
    {
        let text = addresses.get(i).to_text();
        assert(text@ == texts[i as int]);
        match append(out, text.as_slice()) {
            Ok(()) => {},
            Err(e) => {
                assert(!texts_fit(texts)) by {
                    assert(texts[i as int].len() > u16::MAX);
                }
                return Err(e);
            },
        }
        proof {
            assert(texts.take(i + 1).drop_last() =~= texts.take(i as int));
            assert(texts.take(i + 1).last() == texts[i as int]);
            assert forall|k: int| 0 <= k < i + 1 implies (#[trigger] texts.take(i + 1)[k]).len()
                <= u16::MAX by {
                if k < i {
                    assert(texts.take(i + 1)[k] == texts.take(i as int)[k]);
                }
            }
        }
        i = i + 1;
        assert(out@ =~= old(out)@ + fields_concat(texts.take(i as int)));
    }
    assert(texts.take(n as int) =~= texts);
    Ok(())
}

// ---------------------------------------------------------------------------
// Signed records.
/// The mathematical value of a [`SignedContact`].
pub struct ContactView {
    pub id: PeerId,
    pub issued: u64,
    pub expires: u64,
    pub sequence: u64,
    pub addresses: Seq<AddressView>,
    pub wire: Seq<u8>,
}

/// A bounded, signed discovery record whose addresses remain routing hints.
///
/// Records expire within an hour. Applications supply a monotonically increasing
/// sequence and retain it across restarts; resolvers reject observed rollbacks.
#[derive(Debug)]
pub struct SignedContact {
    id: PeerId,
    issued: u64,
    expires: u64,
    sequence: u64,
    addresses: AddressSet,
    wire: Vec<u8>,
}

impl View for SignedContact {
    type V = ContactView;

    closed spec fn view(&self) -> ContactView {
        ContactView {
            id: self.id,
            issued: self.issued,
            expires: self.expires,
            sequence: self.sequence,
            addresses: self.addresses@,
            wire: self.wire@,
        }
    }
}

/// `wire` is the signed part of a record for public identity `public`
/// (which fits its length prefix), followed by `signature`.
pub open spec fn laid_out(
    wire: Seq<u8>,
    public: Seq<u8>,
    issued: u64,
    expires: u64,
    sequence: u64,
    addresses: Seq<AddressView>,
    signature: Seq<u8>,
) -> bool {
    &&& public.len() <= u16::MAX
    &&& wire == encode_body(public, issued, expires, sequence, address_texts(addresses)) + signature
}

/// What holds of every signed record: it is valid for a non-empty window of
/// at most an hour, names between one and [`MAX_ADDRESSES`] supported
/// addresses in increasing order, fits the wire limit, and its bytes are the
/// magic, a public identity, start, end, sequence, the address count and the
/// address texts, followed by a signature.
pub open spec fn record_invariant(
    issued: u64,
    expires: u64,
    sequence: u64,
    addresses: Seq<AddressView>,
    wire: Seq<u8>,
) -> bool {
    &&& issued < expires
    &&& expires - issued <= MAX_VALIDITY_SECS
    &&& 0 < addresses.len() <= MAX_ADDRESSES
    &&& forall|i: int| 0 <= i < addresses.len() ==> #[trigger] address_supported(addresses[i])
    &&& strictly_increasing(addresses)
    &&& wire.len() <= MAX_CONTACT_SIZE
    &&& exists|p: Seq<u8>, sig: Seq<u8>|
        #[trigger] laid_out(wire, p, issued, expires, sequence, addresses, sig)
}

/// [`record_invariant`] of a signed record.
pub open spec fn contact_invariant(c: ContactView) -> bool {
    record_invariant(c.issued, c.expires, c.sequence, c.addresses, c.wire)
}

impl SignedContact {
    /// The record's invariant.
    pub open spec fn wf(&self) -> bool {
        contact_invariant(self@)
    }

    /// The bytes that the identity signs for a record valid at Unix seconds
    /// `issued` until `expires` (at most one hour), naming `addresses`.
    pub fn signing_input(
        public: &[u8],
        sequence: u64,
        issued: u64,
        expires: u64,
        addresses: &AddressSet,
    ) -> (r: Result<Vec<u8>, Error>)
        ensures
            match signing_input_spec(public@, sequence, issued, expires, addresses@) {
                Ok(body) => r is Ok && r->Ok_0@ == body,
                Err(e) => r is Err && r->Err_0 == e,
            },
    {
        validate(issued, expires, issued, addresses)?;
        let mut wire = magic_bytes();
        append(&mut wire, public)?;
        push_be64(&mut wire, issued);
        push_be64(&mut wire, expires);
        push_be64(&mut wire, sequence);
        let count: u16 = addresses.len() as u16;
        push_be16(&mut wire, count);
        append_addresses(&mut wire, addresses)?;
        assert(wire@ =~= encode_body(public@, issued, expires, sequence, address_texts(addresses@)));
        Ok(wire)
    }

    /// Signs a record valid at Unix seconds `issued` until `expires` (at most
    /// one hour): `signature` is what identity `id`, whose public identity is
    /// `public`, made of [`SignedContact::signing_input`].
    pub fn sign(
        id: PeerId,
        public: &[u8],
        sequence: u64,
        issued: u64,
        expires: u64,
        addresses: AddressSet,
        signature: &[u8],
    ) -> (r: Result<SignedContact, Error>)
        requires
            addresses.wf(),
        ensures
            match sign_spec(public@, sequence, issued, expires, addresses@, signature@) {
                Ok(wire) => r is Ok && r->Ok_0.wf() && r->Ok_0@ == (ContactView {
                    id,
                    issued,
                    expires,
                    sequence,
                    addresses: addresses@,
                    wire,
                }),
                Err(e) => r is Err && r->Err_0 == e,
            },
    {
        let mut wire = SignedContact::signing_input(public, sequence, issued, expires, &addresses)?;
        if wire.len() > MAX_CONTACT_SIZE || signature.len() > MAX_CONTACT_SIZE - wire.len() {
            return Err(Error::Protocol(ProtocolError::ContactTooLarge));
        }
        push_all(&mut wire, signature);
        assert(laid_out(wire@, public@, issued, expires, sequence, addresses@, signature@));
        Ok(SignedContact { id, sequence, issued, expires, addresses, wire })
    }

    /// Identity authenticated by the record signature.
    pub fn id(&self) -> (r: PeerId)
        ensures
            r == self@.id,
    {
        self.id
    }

    /// Monotonic publisher sequence used for rollback rejection.
    pub fn sequence(&self) -> (r: u64)
        ensures
            r == self@.sequence,
    {
        self.sequence
    }

    /// Unix timestamp when this record becomes valid.
    pub fn issued(&self) -> (r: u64)
        ensures
            r == self@.issued,
    {
        self.issued
    }

    /// Unix timestamp after which this record must be discarded.
    pub fn expires(&self) -> (r: u64)
        ensures
            r == self@.expires,
    {
        self.expires
    }

    /// Authenticated routing hints; TLS must still authenticate the connection.
    pub fn addresses(&self) -> (r: &AddressSet)
        ensures
            r@ == self@.addresses,
            self.wf() ==> r.wf(),
    {
        &self.addresses
    }

    /// Canonical wire encoding including the signature.
    pub fn as_bytes(&self) -> (r: &[u8])
        ensures
            r@ == self@.wire,
    {
        self.wire.as_slice()
    }
}

} // verus!

verus! {

// ---------------------------------------------------------------------------
// Parsing.
/// Reading `n` fields from the front of `s`: their contents and what follows.
pub open spec fn parse_fields(s: Seq<u8>, n: nat) -> Option<(Seq<Seq<u8>>, Seq<u8>)>
    decreases n,
{
    if n == 0 {
        Some((Seq::empty(), s))
    } else {
        match parse_fields(s, (n - 1) as nat) {
            Some((ts, r)) => match parse_field(r) {
                Some((t, r2)) => Some((ts.push(t), r2)),
                None => None,
            },
            None => None,
        }
    }
}

/// The addresses that a record's address texts stand for, if each text is an
/// address and each comes after the one before it.
pub open spec fn interpret_all(texts: Seq<Seq<u8>>) -> Option<Seq<AddressView>>
    decreases texts.len(),
{
    if texts.len() == 0 {
        Some(Seq::empty())
    } else {
        match interpret_all(texts.drop_last()) {
            Some(addrs) => match interpret_text(texts.last()) {
                Some(a) => if addrs.len() > 0 && !addr_lt(addrs.last(), a) {
                    None
                } else {
                    Some(addrs.push(a))
                },
                None => None,
            },
            None => None,
        }
    }
}

/// The parts of a record as read from the wire, before any check of meaning.
pub struct FrameView {
    pub public: Seq<u8>,
    pub issued: u64,
    pub expires: u64,
    pub sequence: u64,
    pub texts: Seq<Seq<u8>>,
    pub signature: Seq<u8>,
}

/// Reading a record's start, end and sequence numbers, and what follows.
pub open spec fn parse_window(s: Seq<u8>) -> Option<(u64, u64, u64, Seq<u8>)> {
    match parse_number(s) {
        None => None,
        Some((issued, r1)) => match parse_number(r1) {
            None => None,
            Some((expires, r2)) => match parse_number(r2) {
                None => None,
                Some((sequence, r3)) => Some((issued, expires, sequence, r3)),
            },
        },
    }
}

/// Reading a record's address count (at most [`MAX_ADDRESSES`]) and address
/// texts, and what follows.
pub open spec fn parse_texts(s: Seq<u8>) -> Result<(Seq<Seq<u8>>, Seq<u8>), Error> {
    if s.len() < 2 {
        Err(Error::Encoding)
    } else {
        let count = be16_value(s.take(2));
        if count > MAX_ADDRESSES {
            Err(Error::Protocol(ProtocolError::TooManyAddresses))
        } else {
            match parse_fields(s.skip(2), count as nat) {
                None => Err(Error::Encoding),
                Some(x) => Ok(x),
            }
        }
    }
}

/// Reading the parts of a record: the size limit and magic, the public
/// identity (at most [`MAX_PUBLIC_KEY_LEN`] bytes), start, end, sequence, the
/// address count (at most [`MAX_ADDRESSES`]) and the address texts; what follows
/// is the signature.
pub open spec fn parse_frame(w: Seq<u8>) -> Result<FrameView, Error> {
    if w.len() > MAX_CONTACT_SIZE || w.len() < MAGIC_LEN || w.take(MAGIC_LEN as int) != magic() {
        Err(Error::Encoding)
    } else {
        match parse_field(w.skip(MAGIC_LEN as int)) {
            None => Err(Error::Encoding),
            Some((public, r1)) => if public.len() > MAX_PUBLIC_KEY_LEN {
                Err(Error::PublicIdentity)
            } else {
                match parse_window(r1) {
                    None => Err(Error::Encoding),
                    Some((issued, expires, sequence, r4)) => match parse_texts(r4) {
                        Err(e) => Err(e),
                        Ok((texts, signature)) => Ok(
                            FrameView { public, issued, expires, sequence, texts, signature },
                        ),
                    },
                }
            },
        }
    }
}

/// The mathematical value of a [`ContactClaim`].
pub struct ClaimView {
    pub public: Seq<u8>,
    pub issued: u64,
    pub expires: u64,
    pub sequence: u64,
    pub addresses: Seq<AddressView>,
    pub wire: Seq<u8>,
    pub signed_len: nat,
}

/// What [`ContactClaim::parse`] answers: the record's parts, its addresses,
/// then the validity checks at `now`.
pub open spec fn parse_claim(w: Seq<u8>, now: u64) -> Result<ClaimView, Error> {
    match parse_frame(w) {
        Err(e) => Err(e),
        Ok(f) => match interpret_all(f.texts) {
            None => Err(Error::Encoding),
            Some(addrs) => match validate_spec(f.issued, f.expires, now, addrs) {
                Err(e) => Err(e),
                Ok(_) => Ok(
                    ClaimView {
                        public: f.public,
                        issued: f.issued,
                        expires: f.expires,
                        sequence: f.sequence,
                        addresses: addrs,
                        wire: w,
                        signed_len: (w.len() - f.signature.len()) as nat,
                    },
                ),
            },
        },
    }
}

pub proof fn lemma_parse_fields_none(s: Seq<u8>, a: nat, b: nat)
    requires
        a <= b,
        parse_fields(s, a) is None,
    ensures
        parse_fields(s, b) is None,
    decreases b,
{
    if a < b {
        lemma_parse_fields_none(s, a, (b - 1) as nat);
    }
}

pub proof fn lemma_parse_fields_len(s: Seq<u8>, b: nat)
    ensures
        parse_fields(s, b) matches Some((ts, r)) ==> ts.len() == b && r.len() <= s.len(),
    decreases b,
{
    if b > 0 {
        lemma_parse_fields_len(s, (b - 1) as nat);
    }
}

pub proof fn lemma_parse_fields_prefix(s: Seq<u8>, a: nat, b: nat)
    requires
        a <= b,
        parse_fields(s, b) is Some,
    ensures
        parse_fields(s, a) matches Some((ts, _)) && ts == parse_fields(s, b)->Some_0.0.take(a as int),
    decreases b,
{
    lemma_parse_fields_len(s, b);
    if a == b {
        let ts = parse_fields(s, b)->Some_0.0;
        assert(ts.take(a as int) =~= ts);
    } else {
        lemma_parse_fields_prefix(s, a, (b - 1) as nat);
        lemma_parse_fields_len(s, (b - 1) as nat);
        let ts = parse_fields(s, (b - 1) as nat)->Some_0.0;
        let t2 = parse_fields(s, b)->Some_0.0;
        assert(t2.drop_last() =~= ts);
        assert(ts.take(a as int) =~= t2.take(a as int));
    }
}

pub proof fn lemma_interpret_all_prefix(texts: Seq<Seq<u8>>, a: int)
    requires
        0 <= a <= texts.len(),
        interpret_all(texts.take(a)) is None,
    ensures
        interpret_all(texts) is None,
    decreases texts.len(),
{
    if a == texts.len() {
        assert(texts.take(a) =~= texts);
    } else {
        assert(texts.drop_last().take(a) =~= texts.take(a));
        lemma_interpret_all_prefix(texts.drop_last(), a);
    }
}

/// A received record whose encoding, addresses and validity window have been
/// checked, and whose signature is still to be checked.
#[derive(Debug)]
pub struct ContactClaim {
    public: Vec<u8>,
    issued: u64,
    expires: u64,
    sequence: u64,
    addresses: AddressSet,
    wire: Vec<u8>,
    signed_len: usize,
}

impl View for ContactClaim {
    type V = ClaimView;

    closed spec fn view(&self) -> ClaimView {
        ClaimView {
            public: self.public@,
            issued: self.issued,
            expires: self.expires,
            sequence: self.sequence,
            addresses: self.addresses@,
            wire: self.wire@,
            signed_len: self.signed_len as nat,
        }
    }
}

impl ContactClaim {
    /// The claim's invariant: what holds of a signed record, and the signed
    /// part is a prefix of the record.
    pub open spec fn wf(&self) -> bool {
        &&& record_invariant(
            self@.issued,
            self@.expires,
            self@.sequence,
            self@.addresses,
            self@.wire,
        )
        &&& laid_out(
            self@.wire,
            self@.public,
            self@.issued,
            self@.expires,
            self@.sequence,
            self@.addresses,
            self@.wire.skip(self@.signed_len as int),
        )
        &&& self@.signed_len <= self@.wire.len()
    }

    /// Reads a received record and checks its canonical encoding, its
    /// addresses and its freshness at Unix time `now`.
    #[verifier::loop_isolation(false)]
    #[verifier::rlimit(30)]
    pub fn parse(wire: &[u8], now: u64) -> (r: Result<ContactClaim, Error>)
        ensures
            match parse_claim(wire@, now) {
                Ok(c) => r is Ok && r->Ok_0.wf() && r->Ok_0@ == c,
                Err(e) => r is Err && r->Err_0 == e,
            },
    {
        let magic = magic_bytes();
        if wire.len() > MAX_CONTACT_SIZE || wire.len() < MAGIC_LEN || !bytes_equal(
            &wire[0..MAGIC_LEN],
            magic.as_slice(),
        ) {
            proof {
                if wire@.len() >= MAGIC_LEN {
                    assert(wire@.subrange(0, MAGIC_LEN as int) =~= wire@.take(MAGIC_LEN as int));
                }
            }
            return Err(Error::Encoding);
        }
        assert(wire@.subrange(0, MAGIC_LEN as int) =~= wire@.take(MAGIC_LEN as int));
        let mut rest: &[u8] = &wire[MAGIC_LEN..wire.len()];
        assert(rest@ =~= wire@.skip(MAGIC_LEN as int));
        let public = field(&mut rest)?;
        if public.len() > MAX_PUBLIC_KEY_LEN {
            return Err(Error::PublicIdentity);
        }
        let issued = number(&mut rest)?;
        let expires = number(&mut rest)?;
        let sequence = number(&mut rest)?;
        let ghost r4 = rest@;
        let head = take(&mut rest, 2)?;
        let count: u16 = ((head[0] as u16) << 8u16) | (head[1] as u16);
        assert(head@ =~= r4.take(2));
        assert(count == be16_value(r4.take(2)));
        if count as usize > MAX_ADDRESSES {
            return Err(Error::Protocol(ProtocolError::TooManyAddresses));
        }
        let ghost r5 = rest@;
        assert(r5 =~= r4.skip(2));
        let ghost mut texts: Seq<Seq<u8>> = Seq::empty();
        let mut addresses = AddressSet::new();
        let mut i: u16 = 0;
        while i < count
            invariant
                i <= count,
                count <= MAX_ADDRESSES,
                addresses.wf(),
                parse_fields(r5, i as nat) == Some((texts, rest@)),
                interpret_all(texts) == Some(addresses@),
                texts.len() == i,
            decreases count - i,
        {
            let ghost before = rest@;
            let text = match field(&mut rest) {
                Ok(t) => t,
                Err(e) => {
                    proof {
                        assert(parse_fields(r5, (i + 1) as nat) is None);
                        lemma_parse_fields_none(r5, (i + 1) as nat, count as nat);
                    }
                    return Err(e);
                },
            };
            let ghost next = texts.push(text@);
            assert(parse_fields(r5, (i + 1) as nat) == Some((next, rest@)));
            assert(next.drop_last() =~= texts);
            let addr = match ContactAddress::from_text(text) {
                Some(a) => a,
                None => {
                    proof {
                        assert(interpret_all(next) is None);
                        if parse_fields(r5, count as nat) is Some {
                            lemma_parse_fields_len(r5, count as nat);
                            lemma_parse_fields_prefix(r5, (i + 1) as nat, count as nat);
                            lemma_interpret_all_prefix(
                                parse_fields(r5, count as nat)->Some_0.0,
                                (i + 1) as int,
                            );
                        }
                    }
                    return Err(Error::Encoding);
                },
            };
            let n = addresses.len();
            if n > 0 && !addresses.get(n - 1).precedes(&addr) {
                proof {
                    assert(interpret_all(next) is None);
                    if parse_fields(r5, count as nat) is Some {
                        lemma_parse_fields_len(r5, count as nat);
                        lemma_parse_fields_prefix(r5, (i + 1) as nat, count as nat);
                        lemma_interpret_all_prefix(
                            parse_fields(r5, count as nat)->Some_0.0,
                            (i + 1) as int,
                        );
                    }
                }
                return Err(Error::Encoding);
            }
            addresses.push(addr);
            proof {
                texts = next;
            }
            i = i + 1;
        }
        proof {
            lemma_parse_fields_len(r5, count as nat);
        }
        validate(issued, expires, now, &addresses)?;
        let signed_len = wire.len() - rest.len();
        proof {
            lemma_accepted_is_canonical(wire@, now);
        }
        Ok(
            ContactClaim {
                public: copy_bytes(public),
                issued,
                expires,
                sequence,
                addresses,
                wire: copy_bytes(wire),
                signed_len,
            },
        )
    }

    /// The embedded public identity.
    pub fn public_key(&self) -> (r: &[u8])
        ensures
            r@ == self@.public,
    {
        self.public.as_slice()
    }

    /// The signed part of the record.
    pub fn signed_message(&self) -> (r: &[u8])
        requires
            self.wf(),
        ensures
            r@ == self@.wire.take(self@.signed_len as int),
    {
        let r = &self.wire[0..self.signed_len];
        assert(r@ =~= self@.wire.take(self@.signed_len as int));
        r
    }

    /// The signature that follows the signed part.
    pub fn signature(&self) -> (r: &[u8])
        requires
            self.wf(),
        ensures
            r@ == self@.wire.skip(self@.signed_len as int),
    {
        let r = &self.wire[self.signed_len..self.wire.len()];
        assert(r@ =~= self@.wire.skip(self@.signed_len as int));
        r
    }
}

/// What [`SignedContact::verify`] answers given the identity layer's answer
/// to the claim's signature.
pub open spec fn verify_spec(claim: ClaimView, expected: PeerId, answer: Result<PeerId, Error>) -> Result<
    ContactView,
    Error,
> {
    match answer {
        Err(e) => Err(e),
        Ok(id) => if id != expected {
            Err(Error::IdentityMismatch)
        } else {
            Ok(
                ContactView {
                    id,
                    issued: claim.issued,
                    expires: claim.expires,
                    sequence: claim.sequence,
                    addresses: claim.addresses,
                    wire: claim.wire,
                },
            )
        },
    }
}

impl SignedContact {
    /// Verifies exact identity: `answer` is the identity layer's answer to the
    /// claim's public identity, signed part and signature (the identity that
    /// signed, or why it refused), and the record is accepted only for the
    /// `expected` identity.
    pub fn verify(claim: ContactClaim, expected: PeerId, answer: Result<PeerId, Error>) -> (r: Result<
        SignedContact,
        Error,
    >)
        requires
            claim.wf(),
        ensures
            match verify_spec(claim@, expected, answer) {
                Ok(c) => r is Ok && r->Ok_0.wf() && r->Ok_0@ == c,
                Err(e) => r is Err && r->Err_0 == e,
            },
    {
        let id = answer?;
        if !id.same(&expected) {
            return Err(Error::IdentityMismatch);
        }
        Ok(
            SignedContact {
                id,
                issued: claim.issued,
                expires: claim.expires,
                sequence: claim.sequence,
                addresses: claim.addresses,
                wire: claim.wire,
            },
        )
    }
}

} // verus!

verus! {

// ---------------------------------------------------------------------------
// Laws of the encoding.
/// Reading back written fields gives the fields and the bytes after them.
pub proof fn lemma_fields_roundtrip(texts: Seq<Seq<u8>>, rest: Seq<u8>)
    requires
        texts_fit(texts),
    ensures
        parse_fields(fields_concat(texts) + rest, texts.len()) == Some((texts, rest)),
    decreases texts.len(),
{
    if texts.len() == 0 {
        assert(fields_concat(texts) + rest =~= rest);
        assert(texts =~= Seq::<Seq<u8>>::empty());
    } else {
        let init = texts.drop_last();
        let last = texts.last();
        assert(texts_fit(init)) by {
            assert forall|i: int| 0 <= i < init.len() implies (#[trigger] init[i]).len()
                <= u16::MAX by {
                assert(init[i] == texts[i]);
            }
        }
        assert(last.len() <= u16::MAX) by {
            assert(last == texts[texts.len() - 1]);
        }
        let tail = field_bytes(last) + rest;
        lemma_fields_roundtrip(init, tail);
        assert(fields_concat(texts) + rest =~= fields_concat(init) + tail);
        lemma_field_roundtrip(last, rest);
        assert(init.push(last) =~= texts);
    }
}

/// Reading fields back is writing them: the bytes read are the fields
/// written, followed by what is left.
pub proof fn lemma_fields_canonical(s: Seq<u8>, n: nat)
    requires
        parse_fields(s, n) is Some,
    ensures
        parse_fields(s, n) matches Some((ts, r)) && texts_fit(ts) && s == fields_concat(ts) + r,
    decreases n,
{
    if n == 0 {
        assert(s =~= fields_concat(Seq::<Seq<u8>>::empty()) + s);
    } else {
        lemma_fields_canonical(s, (n - 1) as nat);
        let (ts, r) = parse_fields(s, (n - 1) as nat)->Some_0;
        let (t, r2) = parse_field(r)->Some_0;
        lemma_field_canonical(r);
        let nts = ts.push(t);
        assert(nts.drop_last() =~= ts);
        assert(s =~= fields_concat(nts) + r2);
        assert forall|i: int| 0 <= i < nts.len() implies (#[trigger] nts[i]).len() <= u16::MAX by {
            if i < ts.len() {
                assert(nts[i] == ts[i]);
            }
        }
    }
}

/// Start, end and sequence are read back as they were written.
pub proof fn lemma_window_roundtrip(issued: u64, expires: u64, sequence: u64, rest: Seq<u8>)
    ensures
        parse_window(window_bytes(issued, expires, sequence) + rest) == Some(
            (issued, expires, sequence, rest),
        ),
{
    let r3 = be64(sequence) + rest;
    let r2 = be64(expires) + r3;
    lemma_number_roundtrip(issued, r2);
    lemma_number_roundtrip(expires, r3);
    lemma_number_roundtrip(sequence, rest);
    assert(window_bytes(issued, expires, sequence) + rest =~= be64(issued) + r2);
}

/// Start, end and sequence as read were written in front of what is left.
pub proof fn lemma_window_canonical(s: Seq<u8>)
    requires
        parse_window(s) is Some,
    ensures
        parse_window(s) matches Some((a, b, c, r)) && s == window_bytes(a, b, c) + r,
{
    lemma_number_canonical(s);
    let (a, r1) = parse_number(s)->Some_0;
    lemma_number_canonical(r1);
    let (b, r2) = parse_number(r1)->Some_0;
    lemma_number_canonical(r2);
    let (c, r3) = parse_number(r2)->Some_0;
    assert(s =~= window_bytes(a, b, c) + r3);
}

/// Address count and texts are read back as they were written.
pub proof fn lemma_texts_roundtrip(texts: Seq<Seq<u8>>, rest: Seq<u8>)
    requires
        texts.len() <= MAX_ADDRESSES,
        texts_fit(texts),
    ensures
        parse_texts(texts_bytes(texts) + rest) == Ok::<(Seq<Seq<u8>>, Seq<u8>), Error>(
            (texts, rest),
        ),
{
    let s = texts_bytes(texts) + rest;
    lemma_be16_roundtrip(texts.len() as u16);
    assert(s.take(2) =~= be16(texts.len() as u16));
    assert(s.skip(2) =~= fields_concat(texts) + rest);
    lemma_fields_roundtrip(texts, rest);
}

/// Address count and texts as read were written in front of what is left.
pub proof fn lemma_texts_canonical(s: Seq<u8>)
    requires
        parse_texts(s) is Ok,
    ensures
        parse_texts(s) matches Ok((t, r)) && t.len() <= MAX_ADDRESSES && texts_fit(t) && s
            == texts_bytes(t) + r,
{
    let count = be16_value(s.take(2));
    lemma_be16_canonical(s.take(2));
    lemma_fields_canonical(s.skip(2), count as nat);
    lemma_parse_fields_len(s.skip(2), count as nat);
    let (t, r) = parse_texts(s)->Ok_0;
    assert(t.len() as u16 == count);
    assert(s =~= s.take(2) + s.skip(2));
    assert(s =~= texts_bytes(t) + r);
}

/// A record's parts are read back as they were written.
#[verifier::rlimit(30)]
pub proof fn lemma_frame_roundtrip(
    public: Seq<u8>,
    issued: u64,
    expires: u64,
    sequence: u64,
    texts: Seq<Seq<u8>>,
    signature: Seq<u8>,
)
    requires
        public.len() <= MAX_PUBLIC_KEY_LEN,
        texts.len() <= MAX_ADDRESSES,
        texts_fit(texts),
        encode_body(public, issued, expires, sequence, texts).len() + signature.len()
            <= MAX_CONTACT_SIZE,
    ensures
        parse_frame(encode_body(public, issued, expires, sequence, texts) + signature) == Ok::<
            FrameView,
            Error,
        >(FrameView { public, issued, expires, sequence, texts, signature }),
{
    let r4 = texts_bytes(texts) + signature;
    let r1 = window_bytes(issued, expires, sequence) + r4;
    let s0 = field_bytes(public) + r1;
    let w = encode_body(public, issued, expires, sequence, texts) + signature;
    lemma_magic_len();
    assert(w =~= magic() + s0);
    assert(w.take(MAGIC_LEN as int) =~= magic());
    assert(w.skip(MAGIC_LEN as int) =~= s0);
    lemma_field_roundtrip(public, r1);
    lemma_window_roundtrip(issued, expires, sequence, r4);
    lemma_texts_roundtrip(texts, signature);
}

/// Regrouping five concatenated byte strings.
proof fn lemma_regroup(a: Seq<u8>, b: Seq<u8>, c: Seq<u8>, d: Seq<u8>, e: Seq<u8>)
    ensures
        (a + (b + (c + d))) + e == a + (b + (c + (d + e))),
{
    assert((a + (b + (c + d))) + e =~= a + (b + (c + (d + e))));
}

/// A sequence is its first `n` elements followed by the rest.
proof fn lemma_split(w: Seq<u8>, n: int)
    requires
        0 <= n <= w.len(),
    ensures
        w == w.take(n) + w.skip(n),
{
    assert(w =~= w.take(n) + w.skip(n));
}

/// Reading a record's parts back is writing them: whatever the parser
/// accepts is exactly the encoding of what it read, followed by the signature.
#[verifier::rlimit(30)]
pub proof fn lemma_frame_canonical(w: Seq<u8>)
    requires
        parse_frame(w) is Ok,
    ensures
        parse_frame(w) matches Ok(f) && texts_fit(f.texts) && f.texts.len() <= MAX_ADDRESSES && w
            == encode_body(f.public, f.issued, f.expires, f.sequence, f.texts) + f.signature,
{
    let f = parse_frame(w)->Ok_0;
    let s0 = w.skip(MAGIC_LEN as int);
    lemma_field_canonical(s0);
    let (public, r1) = parse_field(s0)->Some_0;
    lemma_window_canonical(r1);
    let (issued, expires, sequence, r4) = parse_window(r1)->Some_0;
    lemma_texts_canonical(r4);
    lemma_split(w, MAGIC_LEN as int);
    let a = magic();
    let b = field_bytes(public);
    let c = window_bytes(issued, expires, sequence);
    let d = texts_bytes(f.texts);
    let e = f.signature;
    assert(w == a + (b + (c + (d + e))));
    lemma_regroup(a, b, c, d, e);
}

// ---------------------------------------------------------------------------
// Laws of addresses and records.
/// Every address reads back from its canonical text as itself.
pub open spec fn texts_reinterpret(addrs: Seq<AddressView>) -> bool {
    forall|i: int|
        0 <= i < addrs.len() ==> interpret_text(#[trigger] canonical_text(addrs[i])) == Some(
            addrs[i],
        )
}

/// The address texts of increasing addresses that read back as themselves are
/// read back as those addresses.
pub proof fn lemma_interpret_roundtrip(addrs: Seq<AddressView>)
    requires
        strictly_increasing(addrs),
        texts_reinterpret(addrs),
    ensures
        interpret_all(address_texts(addrs)) == Some(addrs),
    decreases addrs.len(),
{
    if addrs.len() > 0 {
        let init = addrs.drop_last();
        assert(address_texts(addrs).drop_last() =~= address_texts(init));
        assert(strictly_increasing(init)) by {
            assert forall|i: int, j: int| 0 <= i < j < init.len() implies #[trigger] addr_lt(
                init[i],
                init[j],
            ) by {
                assert(addr_lt(addrs[i], addrs[j]));
            }
        }
        assert(texts_reinterpret(init)) by {
            assert forall|i: int| 0 <= i < init.len() implies interpret_text(
                #[trigger] canonical_text(init[i]),
            ) == Some(init[i]) by {
                assert(init[i] == addrs[i]);
                assert(interpret_text(canonical_text(addrs[i])) == Some(addrs[i]));
            }
        }
        lemma_interpret_roundtrip(init);
        let last = addrs.last();
        assert(interpret_text(canonical_text(addrs[addrs.len() - 1])) == Some(
            addrs[addrs.len() - 1],
        ));
        assert(address_texts(addrs).last() == canonical_text(last));
        if init.len() > 0 {
            assert(addr_lt(addrs[init.len() - 1], addrs[addrs.len() - 1]));
        }
        assert(init.push(last) =~= addrs);
    }
}

/// Texts that read as increasing addresses are the canonical texts of those
/// addresses.
pub proof fn lemma_interpret_canonical(texts: Seq<Seq<u8>>)
    requires
        interpret_all(texts) is Some,
    ensures
        interpret_all(texts) matches Some(addrs) && texts == address_texts(addrs)
            && strictly_increasing(addrs),
    decreases texts.len(),
{
    if texts.len() == 0 {
        assert(texts =~= address_texts(Seq::<AddressView>::empty()));
    } else {
        lemma_interpret_canonical(texts.drop_last());
        let addrs = interpret_all(texts.drop_last())->Some_0;
        let a = interpret_text(texts.last())->Some_0;
        let nv = addrs.push(a);
        assert(texts =~= address_texts(nv)) by {
            assert(texts.drop_last() =~= address_texts(addrs));
            assert forall|i: int| 0 <= i < texts.len() implies texts[i] == address_texts(nv)[i] by {
                if i < texts.len() - 1 {
                    assert(texts[i] == texts.drop_last()[i]);
                }
            }
        }
        assert forall|i: int, j: int| 0 <= i < j < nv.len() implies #[trigger] addr_lt(
            nv[i],
            nv[j],
        ) by {
            if j == nv.len() - 1 && i < j - 1 {
                assert(addr_lt(addrs[i], addrs[addrs.len() - 1]));
                lemma_addr_lt_order(addrs[i], addrs.last(), a);
            }
        }
    }
}

/// Reading a signed record back at a time inside its window gives back the
/// public identity, window, sequence and addresses that were signed, with the
/// signature after the signed part; the identity layer's approval of the
/// signer then yields the very record that signing produced. This holds for a
/// public identity of at most [`MAX_PUBLIC_KEY_LEN`] bytes and addresses that
/// read back from their text as themselves.
#[verifier::rlimit(30)]
pub proof fn lemma_sign_then_verify(
    id: PeerId,
    public: Seq<u8>,
    sequence: u64,
    issued: u64,
    expires: u64,
    addrs: Seq<AddressView>,
    signature: Seq<u8>,
    now: u64,
)
    requires
        sign_spec(public, sequence, issued, expires, addrs, signature) is Ok,
        strictly_increasing(addrs),
        public.len() <= MAX_PUBLIC_KEY_LEN,
        texts_reinterpret(addrs),
        window_ok(issued, expires, now),
    ensures
        ({
            let w = sign_spec(public, sequence, issued, expires, addrs, signature)->Ok_0;
            let claim = ClaimView {
                public,
                issued,
                expires,
                sequence,
                addresses: addrs,
                wire: w,
                signed_len: (w.len() - signature.len()) as nat,
            };
            &&& parse_claim(w, now) == Ok::<ClaimView, Error>(claim)
            &&& verify_spec(claim, id, Ok(id)) == Ok::<ContactView, Error>(
                ContactView { id, issued, expires, sequence, addresses: addrs, wire: w },
            )
        }),
{
    let texts = address_texts(addrs);
    lemma_frame_roundtrip(public, issued, expires, sequence, texts, signature);
    lemma_interpret_roundtrip(addrs);
}

/// Every accepted record is exactly the encoding of what it claims, followed
/// by its signature, and satisfies the record invariant at `now`.
#[verifier::rlimit(30)]
pub proof fn lemma_accepted_is_canonical(w: Seq<u8>, now: u64)
    requires
        parse_claim(w, now) is Ok,
    ensures
        parse_claim(w, now) matches Ok(c) && w == encode_body(
            c.public,
            c.issued,
            c.expires,
            c.sequence,
            address_texts(c.addresses),
        ) + w.skip(c.signed_len as int) && laid_out(
            w,
            c.public,
            c.issued,
            c.expires,
            c.sequence,
            c.addresses,
            w.skip(c.signed_len as int),
        ) && record_invariant(c.issued, c.expires, c.sequence, c.addresses, w) && window_ok(
            c.issued,
            c.expires,
            now,
        ) && c.public.len() <= MAX_PUBLIC_KEY_LEN,
{
    lemma_frame_canonical(w);
    let f = parse_frame(w)->Ok_0;
    lemma_interpret_canonical(f.texts);
    let c = parse_claim(w, now)->Ok_0;
    assert(w.skip(c.signed_len as int) =~= f.signature);
    assert(laid_out(w, c.public, c.issued, c.expires, c.sequence, c.addresses, f.signature));
}

} // verus!

verus! {

impl Clone for SignedContact {
    /// A copy of the record.
    fn clone(&self) -> (r: SignedContact)
        ensures
            r@ == self@,
    {
        SignedContact {
            id: self.id,
            issued: self.issued,
            expires: self.expires,
            sequence: self.sequence,
            addresses: self.addresses.clone(),
            wire: copy_bytes(self.wire.as_slice()),
        }
    }
}

impl Clone for ContactClaim {
    /// A copy of the claim.
    fn clone(&self) -> (r: ContactClaim)
        ensures
            r@ == self@,
    {
        ContactClaim {
            public: copy_bytes(self.public.as_slice()),
            issued: self.issued,
            expires: self.expires,
            sequence: self.sequence,
            addresses: self.addresses.clone(),
            wire: copy_bytes(self.wire.as_slice()),
            signed_len: self.signed_len,
        }
    }
}

} // verus!

verus! {

/// Every signed record, whether made by signing, accepted by verifying or
/// copied from one of those, expires within an hour of its start, carries
/// between one and [`MAX_ADDRESSES`] supported addresses in increasing order,
/// is at most [`MAX_CONTACT_SIZE`] bytes long, starts with the magic, and
/// continues with a public identity, its start, end and sequence, the address
/// count and the address texts, followed by a signature.
pub proof fn lemma_signed_record(c: SignedContact)
    requires
        c.wf(),
    ensures
        c@.issued < c@.expires,
        c@.expires - c@.issued <= MAX_VALIDITY_SECS,
        0 < c@.addresses.len() <= MAX_ADDRESSES,
        forall|i: int| 0 <= i < c@.addresses.len() ==> #[trigger] address_supported(c@.addresses[i]),
        strictly_increasing(c@.addresses),
        c@.wire.len() <= MAX_CONTACT_SIZE,
        c@.wire.take(MAGIC_LEN as int) == magic(),
        exists|p: Seq<u8>, sig: Seq<u8>|
            #[trigger] laid_out(c@.wire, p, c@.issued, c@.expires, c@.sequence, c@.addresses, sig),
{
    let (p, sig) = choose|p: Seq<u8>, sig: Seq<u8>|
        laid_out(c@.wire, p, c@.issued, c@.expires, c@.sequence, c@.addresses, sig);
    lemma_magic_len();
    let rest = (field_bytes(p) + (window_bytes(c@.issued, c@.expires, c@.sequence) + texts_bytes(
        address_texts(c@.addresses),
    ))) + sig;
    assert(c@.wire =~= magic() + rest);
    assert(c@.wire.take(MAGIC_LEN as int) =~= magic());
}

} // verus!

verus! {

/// The text of an address reads back through the outside parser as the same
/// address: an IP address's display parses back to it, and a relay URL's
/// text is UTF-8 that parses back to the same URL and scheme.
pub open spec fn outside_reads_back(a: AddressView) -> bool {
    match a {
        AddressView::Ip(e) => crate::address::socket_addr_parse(crate::address::socket_addr_display(e))
            == Some(e),
        AddressView::Relay { url, scheme } => vstd::utf8::valid_utf8(url)
            && crate::address::relay_url_parse(vstd::utf8::decode_utf8(url)) == Some((url, scheme)),
    }
}

/// Addresses whose texts the outside parsers read back as themselves are
/// read back by the record parser as themselves.
pub proof fn lemma_texts_reinterpret(addrs: Seq<AddressView>)
    requires
        forall|i: int| 0 <= i < addrs.len() ==> outside_reads_back(#[trigger] addrs[i]),
    ensures
        texts_reinterpret(addrs),
{
    assert forall|i: int| 0 <= i < addrs.len() implies interpret_text(
        #[trigger] canonical_text(addrs[i]),
    ) == Some(addrs[i]) by {
        assert(outside_reads_back(addrs[i]));
        match addrs[i] {
            AddressView::Ip(e) => crate::address::lemma_ip_text_reads_back(e),
            AddressView::Relay { url, scheme } => crate::address::lemma_relay_text_reads_back(
                url,
                scheme,
            ),
        }
    }
}

} // verus!
