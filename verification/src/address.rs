//! Addresses: a 20-byte public-key hash with a version byte and a 4-byte
//! checksum, carried as base58 strings.

use vstd::prelude::*;

use crate::bytes::{clone_bytes, sub_bytes, bytes_eq};
use crate::crypto;
use crate::errors::ChainError;

verus! {

/// The address version byte in use.
pub const ADDRESS_VERSION: u8 = 0;

/// The ghost image of an address: its three components as byte strings.
pub ghost struct AddressV {
    pub pub_key_hash: Seq<u8>,
    pub version: u8,
    pub checksum: Seq<u8>,
}

/// A decoded address.
#[derive(Debug)]
pub struct Address {
    pub_key_hash: Vec<u8>,
    version: u8,
    checksum: Vec<u8>,
}

impl View for Address {
    type V = AddressV;

    closed spec fn view(&self) -> AddressV {
        AddressV {
            pub_key_hash: self.pub_key_hash@,
            version: self.version,
            checksum: self.checksum@,
        }
    }
}

/// The checksum an address must carry: the first four bytes of the double
/// SHA-256 of the version byte followed by the public-key hash.
pub open spec fn checksum_of(version: u8, pub_key_hash: Seq<u8>) -> Seq<u8> {
    crypto::sha256_of(crypto::sha256_of(seq![version] + pub_key_hash)).take(4)
}

/// A well-formed address: 20-byte hash and matching 4-byte checksum.
pub open spec fn address_wf(a: AddressV) -> bool {
    &&& a.pub_key_hash.len() == 20
    &&& a.checksum.len() == 4
    &&& a.checksum == checksum_of(a.version, a.pub_key_hash)
}

/// The 25 bytes of an address in the order they are base58-encoded:
/// version, public-key hash, checksum.
pub open spec fn address_bytes(a: AddressV) -> Seq<u8> {
    seq![a.version] + a.pub_key_hash + a.checksum
}

/// Hashes a public key with SHA-256 followed by RIPEMD-160.
pub fn hash_pub_key(pub_key: &Vec<u8>) -> (r: Vec<u8>)
    ensures
        r@ == crypto::hash160_of(pub_key@),
        r@.len() == 20,
{
    let sha = crypto::sha256(pub_key);
    crypto::ripemd160(&sha)
}

/// Whether a string denotes a well-formed address: within the decoder's
/// bound, base58, 25 bytes once decoded, carrying the checksum of its own
/// version byte and hash.
pub open spec fn address_str_ok(s: Seq<char>) -> bool {
    &&& s.len() <= 132
    &&& crypto::base58_decode_of(s) is Some
    &&& crypto::base58_decode_of(s).unwrap().len() == 25
    &&& crypto::base58_decode_of(s).unwrap().subrange(21, 25) == checksum_of(
        crypto::base58_decode_of(s).unwrap()[0],
        crypto::base58_decode_of(s).unwrap().subrange(1, 21),
    )
}

impl Address {
    /// Computes the checksum over a version byte and a public-key hash.
    fn calculate_checksum(version: u8, pub_key_hash: &Vec<u8>) -> (r: Vec<u8>)
        ensures
            r@ == checksum_of(version, pub_key_hash@),
            r@.len() == 4,
    {
        let mut data: Vec<u8> = Vec::new();
        data.push(version);
        let mut rest = clone_bytes(pub_key_hash);
        data.append(&mut rest);
        assert(data@ =~= seq![version] + pub_key_hash@);
        let first = crypto::sha256(&data);
        let second = crypto::sha256(&first);
        let r = sub_bytes(&second, 0, 4);
        assert(r@ =~= crypto::sha256_of(crypto::sha256_of(seq![version] + pub_key_hash@)).take(4));
        r
    }

    /// Decodes an address whose base58 form is known to be well-shaped:
    /// it decodes, to exactly 25 bytes. The checksum is not examined here;
    /// `new_from_str` is the checked entry point.
    pub fn new(addr: &str) -> (r: Address)
        requires
            addr@.len() <= 132,
            crypto::base58_decode_of(addr@) is Some,
            crypto::base58_decode_of(addr@).unwrap().len() == 25,
        ensures
            r@.version == crypto::base58_decode_of(addr@).unwrap()[0],
            r@.pub_key_hash == crypto::base58_decode_of(addr@).unwrap().subrange(1, 21),
            r@.checksum == crypto::base58_decode_of(addr@).unwrap().subrange(21, 25),
    {
        let decoded_opt = crypto::base58_decode(addr);
        let decoded = match decoded_opt {
            Some(d) => d,
            None => {
                proof {
                    assert(false);
                }
                Vec::new()
            },
        };
        let version = decoded[0];
        let pub_key_hash = sub_bytes(&decoded, 1, 21);
        let checksum = sub_bytes(&decoded, 21, 25);
        Address { pub_key_hash, version, checksum }
    }

    /// Decodes and checks an address string: it must be base58, 25 bytes
    /// long once decoded, and carry the checksum of its own contents.
    /// Returns `InvalidAddress` exactly when one of those fails.
    pub fn new_from_str(addr: &str) -> (r: Result<Address, ChainError>)
        ensures
            r is Ok <==> address_str_ok(addr@),
            r is Ok ==> {
                &&& address_wf(r.unwrap()@)
                &&& address_bytes(r.unwrap()@) == crypto::base58_decode_of(addr@).unwrap()
            },
            r is Err ==> r.unwrap_err() == ChainError::InvalidAddress,
    {
        if addr.unicode_len() > 132 {
            return Err(ChainError::InvalidAddress);
        }
        let decoded_opt = crypto::base58_decode(addr);
        let decoded = match decoded_opt {
            Some(d) => d,
            None => {
                return Err(ChainError::InvalidAddress);
            },
        };
        if decoded.len() != 25 {
            return Err(ChainError::InvalidAddress);
        }
        let a = Address::new(addr);
        let target = Address::calculate_checksum(a.version, &a.pub_key_hash);
        if !bytes_eq(&target, &a.checksum) {
            return Err(ChainError::InvalidAddress);
        }
        proof {
            let d = crypto::base58_decode_of(addr@).unwrap();
            assert(address_bytes(a@) =~= d);
        }
        Ok(a)
    }

    /// Builds the address of a public key: version 0, the key's
    /// SHA-256/RIPEMD-160 hash, and the checksum over both.
    pub fn new_from_key(pub_key: &Vec<u8>) -> (r: Address)
        ensures
            r@.version == ADDRESS_VERSION,
            r@.pub_key_hash == crypto::hash160_of(pub_key@),
            address_wf(r@),
    {
        let pub_key_hash = hash_pub_key(pub_key);
        let checksum = Address::calculate_checksum(ADDRESS_VERSION, &pub_key_hash);
        Address { pub_key_hash, version: ADDRESS_VERSION, checksum }
    }

    /// The public-key hash the address locks outputs to.
    pub fn pub_key_hash(&self) -> (r: &Vec<u8>)
        ensures
            r@ == self@.pub_key_hash,
    {
        &self.pub_key_hash
    }

    /// The full base58 form: version, hash and checksum concatenated and
    /// encoded.
    pub fn get_full_address(&self) -> (r: String)
        ensures
            r@ == crypto::base58_of(address_bytes(self@)),
    {
        let mut full: Vec<u8> = Vec::new();
        full.push(self.version);
        let mut h = clone_bytes(&self.pub_key_hash);
        full.append(&mut h);
        let mut c = clone_bytes(&self.checksum);
        full.append(&mut c);
        assert(full@ =~= address_bytes(self@));
        crypto::base58_encode(&full)
    }

    /// The full base58 form, under the name the earliest callers used.
    pub fn get_address(&self) -> (r: String)
        ensures
            r@ == crypto::base58_of(address_bytes(self@)),
    {
        self.get_full_address()
    }
}

} // verus!
