//! Trailer fields that describe a streamed body: its SHA-256 digest and its
//! length.

use vstd::prelude::*;
use crate::headers::{put_entry, Headers};
use crate::numeric::{decimal, decimal_text};
use crate::text::lower_of;
use crate::wire::ascii_chars;

verus! {

/// What SHA-256 makes of `b`.
pub uninterp spec fn sha256_of(b: Seq<u8>) -> Seq<u8>;

/// Relies on `sha2::Sha256::digest` (the `digest::Digest` trait): the
/// SHA-256 digest of the bytes, whose output size is 32 bytes.
#[verifier::external_body]
fn sha256(b: &[u8]) -> (r: Vec<u8>)
    ensures
        r@ == sha256_of(b@),
        r@.len() == 32,
{
    <sha2::Sha256 as sha2::Digest>::digest(b).to_vec()
}

/// The lower-case hexadecimal digit of `d < 16`.
pub open spec fn lower_hex_digit(d: nat) -> u8 {
    if d < 10 {
        (48 + d) as u8
    } else {
        (87 + d) as u8
    }
}

/// Two lower-case hexadecimal digits for each byte, high half first.
pub open spec fn hex_lower(b: Seq<u8>) -> Seq<u8>
    decreases b.len(),
{
    if b.len() == 0 {
        Seq::empty()
    } else {
        hex_lower(b.drop_last()) + seq![
            lower_hex_digit((b.last() / 16) as nat),
            lower_hex_digit((b.last() % 16) as nat),
        ]
    }
}

/// Relies on `hex::encode`: two lower-case hexadecimal digits for each
/// byte, high half first.
#[verifier::external_body]
fn to_hex(b: &[u8]) -> (r: String)
    ensures
        r@ == ascii_chars(hex_lower(b@)),
{
    hex::encode(b)
}

/// The trailer fields for a body with digest `digest` and `length` bytes:
/// `X-Content-SHA256`, then `X-Content-Length`, under lower-cased names.
pub open spec fn digest_entries(digest: Seq<u8>, length: nat) -> Seq<(Seq<char>, Seq<char>)> {
    put_entry(
        put_entry(Seq::empty(), lower_of("X-Content-SHA256"@), ascii_chars(hex_lower(digest))),
        lower_of("X-Content-Length"@),
        ascii_chars(decimal(length)),
    )
}

/// The trailer fields for a body whose SHA-256 digest is `digest` and whose
/// length is `length`: the digest in hexadecimal, then the length.
pub fn digest_trailers(digest: &[u8], length: usize) -> (r: Headers)
    ensures
        r.wf(),
        r.entries() == digest_entries(digest@, length as nat),
{
    let mut t = Headers::new();
    t.insert(String::from_str("X-Content-SHA256"), to_hex(digest));
    t.insert(String::from_str("X-Content-Length"), decimal_text(length));
    t
}

/// The trailer fields that describe `body`: its SHA-256 digest in
/// hexadecimal, then its length.
pub fn body_trailers(body: &[u8]) -> (r: Headers)
    ensures
        r.wf(),
        r.entries() == digest_entries(sha256_of(body@), body@.len()),
{
    let digest = sha256(body);
    digest_trailers(digest.as_slice(), body.len())
}

} // verus!
