//! HMAC signature checks over the raw request body.

use hmac::{Hmac, Mac};
use sha1::Sha1;
use sha2::Sha256;
use vstd::prelude::*;
use vstd::string::*;

verus! {

/// HMAC-SHA256 of `msg`, keyed with the UTF-8 bytes of `key`.
pub uninterp spec fn hmac_sha256_of(key: Seq<char>, msg: Seq<u8>) -> Seq<u8>;

/// HMAC-SHA1 of `msg`, keyed with the UTF-8 bytes of `key`.
pub uninterp spec fn hmac_sha1_of(key: Seq<char>, msg: Seq<u8>) -> Seq<u8>;

/// The lowercase hexadecimal digit for a value below sixteen.
pub open spec fn hex_char(n: u8) -> char {
    if n < 10 {
        ((n + 48) as u8) as char
    } else {
        ((n + 87) as u8) as char
    }
}

/// Lowercase hexadecimal text of a byte string, high nibble first.
pub open spec fn hex_text(b: Seq<u8>) -> Seq<char>
    decreases b.len(),
{
    if b.len() == 0 {
        Seq::empty()
    } else {
        seq![hex_char((b[0] / 16) as u8), hex_char((b[0] % 16) as u8)] + hex_text(b.drop_first())
    }
}

/// `s` with every leading copy of `p` removed.
pub open spec fn strip_all(s: Seq<char>, p: Seq<char>) -> Seq<char>
    decreases s.len(),
{
    if p.len() > 0 && p.is_prefix_of(s) {
        strip_all(s.skip(p.len() as int), p)
    } else {
        s
    }
}

/// Relies on hmac::Hmac with sha2::Sha256: the MAC of `msg` under the key
/// bytes of `key`. `new_from_slice` of this MAC accepts keys of any length.
#[verifier::external_body]
fn hmac_sha256(key: &str, msg: &[u8]) -> (r: Option<Vec<u8>>)
    ensures
        r is Some,
        r->0@ == hmac_sha256_of(key@, msg@),
{
    match Hmac::<Sha256>::new_from_slice(key.as_bytes()) {
        Ok(mut mac) => {
            mac.update(msg);
            Some(mac.finalize().into_bytes().to_vec())
        },
        Err(_) => None,
    }
}

/// Relies on hmac::Hmac with sha1::Sha1: the MAC of `msg` under the key
/// bytes of `key`. `new_from_slice` of this MAC accepts keys of any length.
#[verifier::external_body]
fn hmac_sha1(key: &str, msg: &[u8]) -> (r: Option<Vec<u8>>)
    ensures
        r is Some,
        r->0@ == hmac_sha1_of(key@, msg@),
{
    match Hmac::<Sha1>::new_from_slice(key.as_bytes()) {
        Ok(mut mac) => {
            mac.update(msg);
            Some(mac.finalize().into_bytes().to_vec())
        },
        Err(_) => None,
    }
}

/// Relies on hex::encode: two lowercase hexadecimal digits per byte, high
/// nibble first.
#[verifier::external_body]
fn hex_encode(b: &[u8]) -> (r: String)
    ensures
        r@ == hex_text(b@),
{
    hex::encode(b)
}

/// Relies on constant_time_eq::constant_time_eq: true exactly when the two
/// byte strings have the same length and the same bytes; the bytes are
/// compared without an early exit. UTF-8 encoding is injective, so equal
/// bytes means equal text.
#[verifier::external_body]
fn same_text_constant_time(a: &str, b: &str) -> (r: bool)
    ensures
        r == (a@ == b@),
{
    constant_time_eq::constant_time_eq(a.as_bytes(), b.as_bytes())
}

/// Whether `p` is a prefix of `s`.
pub fn has_prefix(p: &str, s: &str) -> (r: bool)
    ensures
        r == p@.is_prefix_of(s@),
{
    let m = p.unicode_len();
    let n = s.unicode_len();
    if m > n {
        return false;
    }
    let mut i: usize = 0;
    while i < m
        invariant
            m == p@.len(),
            n == s@.len(),
            m <= n,
            i <= m,
            forall|j: int| 0 <= j < i ==> #[trigger] p@[j] == s@[j],
        decreases m - i,
    {
        if p.get_char(i) != s.get_char(i) {
            assert(p@[i as int] != s@[i as int]);
            return false;
        }
        i = i + 1;
    }
    assert(p@ =~= s@.subrange(0, m as int));
    true
}

/// Removes every leading copy of `p` from `s`.
pub fn strip_repeated<'a>(s: &'a str, p: &str) -> (r: &'a str)
    ensures
        r@ == strip_all(s@, p@),
{
    let m = p.unicode_len();
    if m == 0 {
        return s;
    }
    let mut cur: &'a str = s;
    while has_prefix(p, cur)
        invariant
            m == p@.len(),
            m > 0,
            strip_all(s@, p@) == strip_all(cur@, p@),
        decreases cur@.len(),
    {
        let n = cur.unicode_len();
        let next = cur.substring_char(m, n);
        assert(next@ =~= cur@.skip(m as int));
        cur = next;
    }
    cur
}

/// Whether a signature header value, once every leading copy of the scheme
/// prefix is removed, is the hexadecimal text of `digest`. The comparison
/// takes the same time wherever the first difference lies.
pub fn matches_digest(claimed: &str, scheme: &str, digest: &[u8]) -> (r: bool)
    ensures
        r == (strip_all(claimed@, scheme@) == hex_text(digest@)),
{
    let sig = strip_repeated(claimed, scheme);
    let expected = hex_encode(digest);
    same_text_constant_time(sig, expected.as_str())
}

/// Whether `claimed` carries the HMAC-SHA256 of `body` under `secret`.
pub fn sha256_signature_valid(claimed: &str, secret: &str, body: &[u8]) -> (r: bool)
    ensures
        r == (strip_all(claimed@, "sha256="@) == hex_text(hmac_sha256_of(secret@, body@))),
{
    match hmac_sha256(secret, body) {
        Some(d) => matches_digest(claimed, "sha256=", d.as_slice()),
        None => false,
    }
}

/// Whether `claimed` carries the HMAC-SHA1 of `body` under `secret`.
pub fn sha1_signature_valid(claimed: &str, secret: &str, body: &[u8]) -> (r: bool)
    ensures
        r == (strip_all(claimed@, "sha1="@) == hex_text(hmac_sha1_of(secret@, body@))),
{
    match hmac_sha1(secret, body) {
        Some(d) => matches_digest(claimed, "sha1=", d.as_slice()),
        None => false,
    }
}

} // verus!
