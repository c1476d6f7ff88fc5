# iroh_identity

Signed contact records for identity-based discovery, verified with Verus.

- `src/wire.rs`: big-endian integers and `u16`-length-prefixed fields.
- `src/address.rs`: routing hints (IP socket addresses, relay URLs), their
  canonical text, their order, the address policy, and the ordered
  `AddressSet`.
- `src/contact.rs`: the validity window, the encoding that is signed, the
  parser of received records (`ContactClaim::parse`), `SignedContact`, and the
  laws tying signing and verification together.
- `src/discovery.rs`: the HTTP lookup client's origin check, record URL and
  response size limit.
- `src/bench.rs`: the handshake benchmark's choices of identities, labels and
  schedule.
- `app/lib.rs`: conversions from and to `iroh_base::TransportAddr`, glue to an
  identity layer, and the HTTP transport.

Signing and signature checks belong to the identity layer: the library builds
the bytes to sign, appends the signature it is given, and accepts a parsed
record for an expected identity from the layer's answer.
