//! Session ids: the lowercase hex of a SHA-256 digest.
use vstd::prelude::*;
use vstd::string::StringSliceAdditionalSpecFns;
use sha2::{Digest, Sha256};

verus! {

/// The SHA-256 digest of a byte string.
pub uninterp spec fn sha256_of(data: Seq<u8>) -> Seq<u8>;

/// The lowercase hex digit of `n` (below 16).
pub open spec fn hex_digit(n: int) -> char {
    seq!['0', '1', '2', '3', '4', '5', '6', '7', '8', '9', 'a', 'b', 'c', 'd', 'e', 'f'][n]
}

/// Two lowercase hex digits per byte, high half first.
pub open spec fn hex_lower(b: Seq<u8>) -> Seq<char>
    decreases b.len(),
{
    if b.len() == 0 {
        Seq::empty()
    } else {
        seq![hex_digit(b[0] as int / 16), hex_digit(b[0] as int % 16)] + hex_lower(b.drop_first())
    }
}

/// Relies on sha2's `Sha256::digest`: the SHA-256 digest of the bytes, which
/// depends on them alone.
#[verifier::external_body]
fn sha256(data: &[u8]) -> (r: Vec<u8>)
    ensures
        r@ == sha256_of(data@),
{
    Sha256::digest(data).to_vec()
}

/// Relies on `hex::encode`: each byte as two lowercase hex digits, high half
/// first.
#[verifier::external_body]
fn hex_encode(data: &[u8]) -> (r: String)
    ensures
        r@ == hex_lower(data@),
{
    hex::encode(data)
}

/// The session id of an email and password: the hex of the SHA-256 digest
/// of the email's bytes followed by the password's.
pub fn session_id_for(email: &str, password: &str) -> (r: String)
    ensures
        r@ == hex_lower(sha256_of(email.spec_bytes() + password.spec_bytes())),
{
    let e = email.as_bytes();
    let p = password.as_bytes();
    let mut data: Vec<u8> = Vec::new();
    let mut i: usize = 0;
    while i < e.len()
        invariant
            i <= e@.len(),
            data@ == e@.subrange(0, i as int),
        decreases e@.len() - i,
    {
        data.push(e[i]);
        i = i + 1;
        assert(data@ =~= e@.subrange(0, i as int));
    }
    let mut j: usize = 0;
    while j < p.len()
        invariant
            i == e@.len(),
            j <= p@.len(),
            data@ == e@ + p@.subrange(0, j as int),
        decreases p@.len() - j,
    {
        data.push(p[j]);
        j = j + 1;
        assert(data@ =~= e@ + p@.subrange(0, j as int));
    }
    assert(e@.subrange(0, e@.len() as int) =~= e@);
    assert(p@.subrange(0, p@.len() as int) =~= p@);
    let digest = sha256(data.as_slice());
    hex_encode(digest.as_slice())
}

/// The session id derived from an email alone.
pub fn hash_email(email: &str) -> (r: String)
    ensures
        r@ == hex_lower(sha256_of(email.spec_bytes())),
{
    let digest = sha256(email.as_bytes());
    hex_encode(digest.as_slice())
}

} // verus!
