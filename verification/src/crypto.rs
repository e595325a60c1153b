//! Trusted boundary to the cryptographic crates: SHA-256, RIPEMD-160,
//! secp256k1 ECDSA, base58, and hex. Every call into an outside crate is made
//! through one of the wrappers here; the contracts speak over named results
//! (`sha256_of`, `sign_of`, ...) and exact spec functions, and everything
//! above this module is verified against them.

use vstd::prelude::*;

use base58::FromBase58;
use base58::ToBase58;

verus! {

/// The SHA-256 digest of a byte string.
pub uninterp spec fn sha256_of(data: Seq<u8>) -> Seq<u8>;

/// The RIPEMD-160 digest of a byte string.
pub uninterp spec fn ripemd160_of(data: Seq<u8>) -> Seq<u8>;

/// Whether 32 bytes are a valid secp256k1 secret key.
pub uninterp spec fn seckey_valid(sk: Seq<u8>) -> bool;

/// Whether a byte string parses as a secp256k1 public key.
pub uninterp spec fn pubkey_valid(pk: Seq<u8>) -> bool;

/// The compressed public key derived from a secret key.
pub uninterp spec fn pubkey_of(sk: Seq<u8>) -> Seq<u8>;

/// The compact ECDSA signature over a 32-byte message under a secret key
/// (deterministic by the RFC 6979 nonce).
pub uninterp spec fn sign_of(msg: Seq<u8>, sk: Seq<u8>) -> Seq<u8>;

/// Whether a compact signature verifies over a 32-byte message under a
/// compressed public key (false as well when signature or key do not parse).
pub uninterp spec fn sig_valid(msg: Seq<u8>, sig: Seq<u8>, pk: Seq<u8>) -> bool;

/// The base58 encoding of a byte string.
pub uninterp spec fn base58_of(data: Seq<u8>) -> Seq<char>;

/// The bytes a base58 string decodes to, `None` when a character is not a
/// base58 digit.
pub uninterp spec fn base58_decode_of(s: Seq<char>) -> Option<Seq<u8>>;

/// The compact form of a DER-encoded ECDSA signature, `None` when the input
/// is not valid DER.
pub uninterp spec fn compact_of_der(der: Seq<u8>) -> Option<Seq<u8>>;

/// Relies on sha2's `Sha256::digest`: the 32-byte SHA-256 digest, a function
/// of the input bytes alone.
#[verifier::external_body]
pub(crate) fn sha256(data: &Vec<u8>) -> (r: Vec<u8>)
    ensures
        r@ == sha256_of(data@),
        r@.len() == 32,
{
    let d = <sha2::Sha256 as sha2::Digest>::digest(data.as_slice());
    d.to_vec()
}

/// Relies on ripemd's `Ripemd160::digest`: the 20-byte RIPEMD-160 digest, a
/// function of the input bytes alone.
#[verifier::external_body]
pub(crate) fn ripemd160(data: &Vec<u8>) -> (r: Vec<u8>)
    ensures
        r@ == ripemd160_of(data@),
        r@.len() == 20,
{
    let d = <ripemd::Ripemd160 as ripemd::Digest>::digest(data.as_slice());
    d.to_vec()
}

/// Relies on secp256k1's `ecdsa::sign` (RFC 6979, deterministic) together
/// with `SecretKey::from_secret_bytes` and `serialize_compact`: returns the
/// 64-byte compact signature exactly when the key bytes are a valid secret
/// key; the signature verifies under the key's public key, as the crate's
/// own documentation shows.
#[verifier::external_body]
pub(crate) fn ecdsa_sign(msg: &Vec<u8>, sk: &Vec<u8>) -> (r: Option<Vec<u8>>)
    requires
        msg@.len() == 32,
    ensures
        sk@.len() == 32 && seckey_valid(sk@) ==> r is Some,
        !(sk@.len() == 32 && seckey_valid(sk@)) ==> r is None,
        r is Some ==> r.unwrap()@ == sign_of(msg@, sk@),
        r is Some ==> r.unwrap()@.len() == 64,
        r is Some ==> sig_valid(msg@, r.unwrap()@, pubkey_of(sk@)),
{
    let mut digest = [0u8; 32];
    digest.copy_from_slice(msg.as_slice());
    let sk_bytes: [u8; 32] = match sk.as_slice().try_into() {
        Ok(b) => b,
        Err(_) => return None,
    };
    let secret = match secp256k1::SecretKey::from_secret_bytes(sk_bytes) {
        Ok(k) => k,
        Err(_) => return None,
    };
    let sig = secp256k1::ecdsa::sign(secp256k1::Message::from_digest(digest), &secret);
    Some(sig.serialize_compact().to_vec())
}

/// Relies on secp256k1's `ecdsa::verify` with `Signature::from_compact` and
/// `PublicKey::from_slice`: true exactly when signature and key parse and the
/// signature is valid for the message under the key — a function of the three
/// arguments alone.
#[verifier::external_body]
pub(crate) fn ecdsa_verify(msg: &Vec<u8>, sig: &Vec<u8>, pk: &Vec<u8>) -> (r: bool)
    requires
        msg@.len() == 32,
    ensures
        r == sig_valid(msg@, sig@, pk@),
{
    let mut digest = [0u8; 32];
    digest.copy_from_slice(msg.as_slice());
    let signature = match secp256k1::ecdsa::Signature::from_compact(sig.as_slice()) {
        Ok(s) => s,
        Err(_) => return false,
    };
    let public = match secp256k1::PublicKey::from_slice(pk.as_slice()) {
        Ok(p) => p,
        Err(_) => return false,
    };
    secp256k1::ecdsa::verify(&signature, secp256k1::Message::from_digest(digest), &public).is_ok()
}

/// Relies on secp256k1's `PublicKey::from_secret_key` and `serialize`: the
/// 33-byte compressed public key of a valid secret key, a function of the key
/// bytes alone.
#[verifier::external_body]
pub(crate) fn pubkey_from_secret(sk: &Vec<u8>) -> (r: Option<Vec<u8>>)
    ensures
        sk@.len() == 32 && seckey_valid(sk@) ==> r is Some,
        !(sk@.len() == 32 && seckey_valid(sk@)) ==> r is None,
        r is Some ==> r.unwrap()@ == pubkey_of(sk@),
        r is Some ==> r.unwrap()@.len() == 33,
{
    let sk_bytes: [u8; 32] = match sk.as_slice().try_into() {
        Ok(b) => b,
        Err(_) => return None,
    };
    let secret = match secp256k1::SecretKey::from_secret_bytes(sk_bytes) {
        Ok(k) => k,
        Err(_) => return None,
    };
    Some(secp256k1::PublicKey::from_secret_key(&secret).serialize().to_vec())
}

/// Relies on secp256k1's `PublicKey::from_slice`: whether the bytes parse as
/// a public key.
#[verifier::external_body]
pub(crate) fn pubkey_check(pk: &Vec<u8>) -> (r: bool)
    ensures
        r == pubkey_valid(pk@),
{
    secp256k1::PublicKey::from_slice(pk.as_slice()).is_ok()
}

/// Relies on secp256k1's `generate_keypair` with the rand crate it re-exports:
/// a fresh random keypair; the first element is a valid secret key and the
/// second its compressed public key.
#[verifier::external_body]
pub(crate) fn generate_keypair() -> (r: (Vec<u8>, Vec<u8>))
    ensures
        r.0@.len() == 32,
        seckey_valid(r.0@),
        r.1@ == pubkey_of(r.0@),
        r.1@.len() == 33,
{
    let (sk, pk) = secp256k1::generate_keypair(&mut secp256k1::rand::rng());
    (sk.to_secret_bytes().to_vec(), pk.serialize().to_vec())
}

/// Relies on the rand crate re-exported by secp256k1: 32 random bytes;
/// nothing is promised of the value.
#[verifier::external_body]
pub(crate) fn random_bytes_32() -> (r: Vec<u8>)
    ensures
        r@.len() == 32,
{
    let bytes: [u8; 32] = secp256k1::rand::Rng::random(&mut secp256k1::rand::rng());
    bytes.to_vec()
}

/// Relies on secp256k1's `Signature::from_der` and `serialize_compact`: the
/// 64-byte compact form of a DER signature, a function of the bytes alone.
#[verifier::external_body]
pub(crate) fn der_to_compact(der: &Vec<u8>) -> (r: Option<Vec<u8>>)
    ensures
        r is Some <==> compact_of_der(der@) is Some,
        r is Some ==> r.unwrap()@ == compact_of_der(der@).unwrap(),
        r is Some ==> r.unwrap()@.len() == 64,
{
    match secp256k1::ecdsa::Signature::from_der(der.as_slice()) {
        Ok(s) => Some(s.serialize_compact().to_vec()),
        Err(_) => None,
    }
}

/// Relies on the base58 crate's `ToBase58` for byte slices: the base58
/// string of the bytes, a function of the bytes alone. Decoding inverts
/// encoding whenever the bytes fit the decoder's 132-byte buffer: the
/// encoder writes one `1` digit per leading zero byte and the base58 digits
/// of the rest, which the decoder maps back to exactly those bytes.
#[verifier::external_body]
pub(crate) fn base58_encode(data: &Vec<u8>) -> (r: String)
    ensures
        r@ == base58_of(data@),
        data@.len() <= 132 ==> base58_decode_of(r@) == Some(data@),
{
    data.as_slice().to_base58()
}

/// Relies on the base58 crate's `FromBase58` for strings: the decoded bytes,
/// `None` exactly when some character is not a base58 digit. The decoder
/// works in a fixed 132-byte buffer and panics when an all-valid input is
/// longer than the buffer holds (133 leading `1` digits underflow its final
/// slice), so inputs longer than 132 bytes are refused here before the call;
/// any shorter input either fails on an invalid digit or fits the buffer.
#[verifier::external_body]
pub(crate) fn base58_decode(s: &str) -> (r: Option<Vec<u8>>)
    ensures
        s@.len() <= 132 ==> (r is Some <==> base58_decode_of(s@) is Some),
        s@.len() > 132 ==> r is None,
        r is Some ==> r.unwrap()@ == base58_decode_of(s@).unwrap(),
{
    if s.len() > 132 {
        return None;
    }
    s.from_base58().ok()
}

/// The lowercase hex digit for a value below 16.
pub open spec fn hex_char(n: u8) -> char
    recommends
        n < 16,
{
    if n == 0 { '0' } else if n == 1 { '1' } else if n == 2 { '2' } else if n == 3 { '3' }
    else if n == 4 { '4' } else if n == 5 { '5' } else if n == 6 { '6' } else if n == 7 { '7' }
    else if n == 8 { '8' } else if n == 9 { '9' } else if n == 10 { 'a' } else if n == 11 { 'b' }
    else if n == 12 { 'c' } else if n == 13 { 'd' } else if n == 14 { 'e' } else { 'f' }
}

/// The value of a hex digit, `None` for any other character; both cases are
/// accepted, as hex decoding accepts them.
pub open spec fn hex_digit_val(c: char) -> Option<u8> {
    if c == '0' { Some(0u8) } else if c == '1' { Some(1u8) } else if c == '2' { Some(2u8) }
    else if c == '3' { Some(3u8) } else if c == '4' { Some(4u8) } else if c == '5' { Some(5u8) }
    else if c == '6' { Some(6u8) } else if c == '7' { Some(7u8) } else if c == '8' { Some(8u8) }
    else if c == '9' { Some(9u8) } else if c == 'a' || c == 'A' { Some(10u8) }
    else if c == 'b' || c == 'B' { Some(11u8) } else if c == 'c' || c == 'C' { Some(12u8) }
    else if c == 'd' || c == 'D' { Some(13u8) } else if c == 'e' || c == 'E' { Some(14u8) }
    else if c == 'f' || c == 'F' { Some(15u8) } else { None }
}

/// The lowercase hex encoding of a byte string: two digits per byte.
pub open spec fn hex_of(data: Seq<u8>) -> Seq<char> {
    Seq::new(
        data.len() * 2,
        |i: int| if i % 2 == 0 { hex_char(data[i / 2] / 16) } else { hex_char(data[i / 2] % 16) },
    )
}

/// Whether a string is well-formed hex: even length, every character a digit.
pub open spec fn is_hex_str(s: Seq<char>) -> bool {
    s.len() % 2 == 0 && forall|i: int| 0 <= i < s.len() ==> (#[trigger] hex_digit_val(s[i])) is Some
}

/// The bytes a well-formed hex string denotes.
pub open spec fn hex_decode_of(s: Seq<char>) -> Seq<u8>
    recommends
        is_hex_str(s),
{
    Seq::new(
        s.len() / 2,
        |i: int| (hex_digit_val(s[2 * i]).unwrap() * 16 + hex_digit_val(s[2 * i + 1]).unwrap()) as u8,
    )
}

/// Relies on hex's `encode`: the lowercase hex string, two digits per byte.
#[verifier::external_body]
pub(crate) fn hex_encode(data: &Vec<u8>) -> (r: String)
    ensures
        r@ == hex_of(data@),
{
    hex::encode(data.as_slice())
}

/// Relies on hex's `decode`: succeeds exactly on even-length strings of hex
/// digits and returns the denoted bytes.
#[verifier::external_body]
pub(crate) fn hex_decode(s: &str) -> (r: Option<Vec<u8>>)
    ensures
        r is Some <==> is_hex_str(s@),
        r is Some ==> r.unwrap()@ == hex_decode_of(s@),
{
    hex::decode(s).ok()
}

/// RIPEMD-160 over SHA-256: the hash that locks a transaction output to a
/// public key.
pub open spec fn hash160_of(pk: Seq<u8>) -> Seq<u8> {
    ripemd160_of(sha256_of(pk))
}

} // verus!
