//! Decisions of the HTTP lookup client: which origins it accepts, where a
//! peer's record lives, and how much of a response it keeps.
use vstd::prelude::*;
use vstd::string::{StrSliceExecFns, StringExecFns};

use crate::contact::MAX_CONTACT_SIZE;
use crate::error::{Error, ProtocolError};

verus! {

/// The scheme, as bytes, of the URL that `url::Url::parse` reads from a text.
pub uninterp spec fn url_parse_scheme(text: Seq<char>) -> Option<Seq<u8>>;

/// The serialization of the URL that `url::Url::parse` reads from `base`
/// once `set_path(path)`, `set_query(None)` and `set_fragment(None)` are
/// applied to it.
pub uninterp spec fn url_with_path(base: Seq<char>, path: Seq<char>) -> Option<Seq<char>>;

/// Parses a URL with `url::Url::parse` and hands back the bytes of its
/// `scheme()`; the result is named by [`url_parse_scheme`] and no more is
/// claimed of it.
#[verifier::external_body]
fn parse_url_scheme(text: &str) -> (r: Option<Vec<u8>>)
    ensures
        r is Some <==> url_parse_scheme(text@) is Some,
        r matches Some(s) ==> url_parse_scheme(text@) == Some(s@),
{
    match url::Url::parse(text) {
        Ok(u) => Some(u.scheme().as_bytes().to_vec()),
        Err(_) => None,
    }
}

/// Longest origin text, and longest record path, in characters, that a
/// record URL is built from. Each character takes at most 12 bytes once
/// percent-encoded, so a URL built from two such texts stays far below the
/// `u32::MAX` bytes at which `url::Url::set_path` panics.
pub const MAX_URL_TEXT_LEN: usize = 16_777_216;

/// Parses `base` with `url::Url::parse`, then sets the path with
/// `Url::set_path` and clears query and fragment; the result is named by
/// [`url_with_path`]. Beyond that it is claimed only that the result exists
/// whenever `base` parses (as [`parse_url_scheme`] finds out with the same
/// `Url::parse`), since setting the path, query and fragment cannot fail.
/// `set_path` panics on a URL over `u32::MAX` bytes, so both texts are
/// bounded by [`MAX_URL_TEXT_LEN`].
#[verifier::external_body]
fn replace_url_path(base: &str, path: &str) -> (r: Option<String>)
    requires
        base@.len() <= MAX_URL_TEXT_LEN,
        path@.len() <= MAX_URL_TEXT_LEN,
    ensures
        r is Some <==> url_with_path(base@, path@) is Some,
        r matches Some(u) ==> url_with_path(base@, path@) == Some(u@),
        url_parse_scheme(base@) is Some ==> r is Some,
{
    match url::Url::parse(base) {
        Ok(mut u) => {
            u.set_path(path);
            u.set_query(None);
            u.set_fragment(None);
            Some(u.into())
        },
        Err(_) => None,
    }
}

/// An origin scheme that lookups may use: `http` or `https`.
pub open spec fn origin_scheme_ok(scheme: Seq<u8>) -> bool {
    scheme == crate::address::http_scheme() || scheme == crate::address::https_scheme()
}

/// HTTP discovery backed by an explicitly enabled identity relay service.
#[derive(Debug)]
pub struct HttpDiscovery {
    base: String,
}

impl HttpDiscovery {
    /// The origin URL, as text.
    pub closed spec fn base_view(&self) -> Seq<char> {
        self.base@
    }

    /// The origin is a URL with scheme `http` or `https`.
    #[verifier::type_invariant]
    closed spec fn origin_ok(&self) -> bool {
        url_parse_scheme(self.base@) matches Some(s) && origin_scheme_ok(s)
    }

    /// Configures a discovery origin, given as the text of a URL: only `http`
    /// and `https` origins are accepted.
    pub fn new(base: &str) -> (r: Result<HttpDiscovery, Error>)
        ensures
            match url_parse_scheme(base@) {
                Some(s) if origin_scheme_ok(s) => r is Ok && r->Ok_0.base_view() == base@,
                _ => r == Err::<HttpDiscovery, Error>(Error::Protocol(ProtocolError::InvalidOrigin)),
            },
    {
        let scheme = match parse_url_scheme(base) {
            Some(s) => s,
            None => return Err(Error::Protocol(ProtocolError::InvalidOrigin)),
        };
        let http: [u8; 4] = [104u8, 116u8, 116u8, 112u8];
        let https: [u8; 5] = [104u8, 116u8, 116u8, 112u8, 115u8];
        assert(http@ =~= crate::address::http_scheme());
        assert(https@ =~= crate::address::https_scheme());
        if !(crate::address::bytes_equal(scheme.as_slice(), http.as_slice())
            || crate::address::bytes_equal(scheme.as_slice(), https.as_slice())) {
            return Err(Error::Protocol(ProtocolError::InvalidOrigin));
        }
        let owned = String::from_str(base);
        assert(url_parse_scheme(owned@) matches Some(s) && origin_scheme_ok(s));
        Ok(HttpDiscovery { base: owned })
    }

    /// The origin URL, as text.
    pub fn base(&self) -> (r: &str)
        ensures
            r@ == self.base_view(),
    {
        self.base.as_str()
    }

    /// The URL of a peer's record: the origin with path `path` followed by the
    /// peer's text form, and neither query nor fragment. It is refused only
    /// when the origin or the path is longer than [`MAX_URL_TEXT_LEN`]
    /// characters.
    pub fn url(&self, path: &str, peer: &str) -> (r: Option<String>)
        ensures
            self.base_view().len() <= MAX_URL_TEXT_LEN && path@.len() + peer@.len()
                <= MAX_URL_TEXT_LEN ==> (r matches Some(u) && url_with_path(
                self.base_view(),
                path@ + peer@,
            ) == Some(u@)),
            !(self.base_view().len() <= MAX_URL_TEXT_LEN && path@.len() + peer@.len()
                <= MAX_URL_TEXT_LEN) ==> r is None,
    {
        proof {
            use_type_invariant(self);
        }
        let mut full = String::from_str(path);
        full.append(peer);
        if self.base.as_str().unicode_len() > MAX_URL_TEXT_LEN || full.as_str().unicode_len()
            > MAX_URL_TEXT_LEN {
            return None;
        }
        match replace_url_path(self.base.as_str(), full.as_str()) {
            Some(u) => Some(u),
            None => {
                assert(false);
                None
            },
        }
    }

    /// Adds a received chunk to a response body, refusing (and leaving the
    /// body as it was) when the body would grow past [`MAX_CONTACT_SIZE`].
    pub fn accept_chunk(body: &mut Vec<u8>, chunk: &[u8]) -> (r: Result<(), Error>)
        ensures
            old(body)@.len() + chunk@.len() > MAX_CONTACT_SIZE ==> r == Err::<(), Error>(
                Error::Protocol(ProtocolError::ResponseTooLarge),
            ) && final(body)@ == old(body)@,
            old(body)@.len() + chunk@.len() <= MAX_CONTACT_SIZE ==> r is Ok && final(body)@ == old(
                body,
            )@ + chunk@,
            r is Ok ==> final(body)@.len() <= MAX_CONTACT_SIZE,
    {
        if chunk.len() > MAX_CONTACT_SIZE || body.len() > MAX_CONTACT_SIZE - chunk.len() {
            return Err(Error::Protocol(ProtocolError::ResponseTooLarge));
        }
        crate::wire::push_all(body, chunk);
        Ok(())
    }
}

impl Clone for HttpDiscovery {
    /// A copy of the client's configuration.
    fn clone(&self) -> (r: HttpDiscovery)
        ensures
            r.base_view() == self.base_view(),
    {
        proof {
            use_type_invariant(self);
        }
        HttpDiscovery { base: self.base.clone() }
    }
}

} // verus!
