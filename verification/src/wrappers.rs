//! Calls into std and outside crates whose contracts are believed, not
//! proved. Each states only what the called function's documentation or
//! source shows.
use vstd::prelude::*;
use vstd::string::StringSliceAdditionalSpecFns;
use vstd::utf8::valid_utf8;
use sha1::Digest;
use crate::tracker::percent_encoded;

verus! {

/// `std::str::from_utf8`: succeeds exactly on valid UTF-8, and the text it
/// returns is made of the very bytes it was given.
#[verifier::external_body]
pub(crate) fn str_from_utf8(bytes: &[u8]) -> (res: Option<&str>)
    ensures
        res is Some <==> valid_utf8(bytes@),
        res matches Some(s) ==> s.spec_bytes() == bytes@,
{
    std::str::from_utf8(bytes).ok()
}

/// What SHA-1 gives for `data`.
pub uninterp spec fn sha1_digest(data: Seq<u8>) -> Seq<u8>;

/// `sha1::Sha1::digest`: the SHA-1 hash of `data`, which is 20 bytes long
/// (the hasher's `OutputSize` is `U20`).
#[verifier::external_body]
pub(crate) fn sha1_hash(data: &[u8]) -> (res: Vec<u8>)
    ensures
        res@ == sha1_digest(data@),
        res@.len() == 20,
{
    sha1::Sha1::digest(data).to_vec()
}

/// A byte buffer of the `bytes` crate, as tracker responses arrive.
#[verifier::external_type_specification]
#[verifier::external_body]
pub struct ExBytes(bytes::Bytes);

/// The bytes that a `Bytes` buffer holds.
pub uninterp spec fn bytes_contents(b: bytes::Bytes) -> Seq<u8>;

/// `<Bytes as Deref<Target = [u8]>>::to_vec`: a copy of the bytes held.
#[verifier::external_body]
pub(crate) fn bytes_to_vec(b: &bytes::Bytes) -> (res: Vec<u8>)
    ensures
        res@ == bytes_contents(*b),
{
    b.to_vec()
}

/// `percent_encoding::percent_encode(data, NON_ALPHANUMERIC).to_string()`:
/// ASCII letters and digits stay as they are, and every other byte becomes
/// `%` and its two upper-case hexadecimal digits.
#[verifier::external_body]
pub(crate) fn percent_encode_non_alphanumeric(data: &[u8]) -> (res: String)
    ensures
        res@ == percent_encoded(data@),
{
    percent_encoding::percent_encode(data, percent_encoding::NON_ALPHANUMERIC).to_string()
}

/// What `url::Url::parse` makes of `input`: `None` where it refuses it,
/// else the URL's scheme and its explicit port (`None` when absent or the
/// scheme's default).
pub uninterp spec fn url_scheme_and_port(input: Seq<char>) -> Option<(Seq<char>, Option<u16>)>;

/// `url::Url::parse`, then `scheme()` and `port()` of the URL.
#[verifier::external_body]
pub(crate) fn parse_url_scheme_and_port(input: &str) -> (res: Option<(String, Option<u16>)>)
    ensures
        match url_scheme_and_port(input@) {
            None => res is None,
            Some(parts) => res matches Some(r) && r.0@ == parts.0 && r.1 == parts.1,
        },
{
    url::Url::parse(input).ok().map(|u| (u.scheme().to_string(), u.port()))
}

} // verus!
