//! Wallets: a secp256k1 keypair, and the in-memory wallet store keyed by the
//! wallet's base58 address. Persisting the store to disk is the shell's job.

use vstd::prelude::*;

use crate::address::{Address, address_bytes, address_wf};
use crate::bytes::clone_bytes;
use crate::crypto;
use crate::errors::ChainError;

verus! {

/// The ghost image of a wallet: the raw key bytes.
pub ghost struct WalletV {
    pub private_key: Seq<u8>,
    pub public_key: Seq<u8>,
}

/// An ECDSA keypair over secp256k1, held as raw bytes.
#[derive(Debug)]
pub struct Wallet {
    private_key: Vec<u8>,
    public_key: Vec<u8>,
}

impl View for Wallet {
    type V = WalletV;

    closed spec fn view(&self) -> WalletV {
        WalletV { private_key: self.private_key@, public_key: self.public_key@ }
    }
}

/// A well-formed wallet: a valid 32-byte secret key and a 33-byte public key.
pub open spec fn wallet_wf(w: WalletV) -> bool {
    &&& w.private_key.len() == 32
    &&& crypto::seckey_valid(w.private_key)
    &&& w.public_key.len() == 33
}

impl Wallet {
    /// Creates a wallet from a fresh random keypair.
    pub fn new() -> (r: Wallet)
        ensures
            wallet_wf(r@),
            r@.public_key == crypto::pubkey_of(r@.private_key),
    {
        let (private_key, public_key) = crypto::generate_keypair();
        Wallet { private_key, public_key }
    }

    /// Rebuilds a wallet from hex-encoded public and private keys. Fails with
    /// `BadSignature` exactly when either string is not hex, the private key
    /// is not a valid 32-byte secret key, or the public key does not parse.
    pub fn from_keys(pub_key: &str, priv_key: &str) -> (r: Result<Wallet, ChainError>)
        ensures
            r is Ok <==> {
                &&& crypto::is_hex_str(priv_key@)
                &&& crypto::hex_decode_of(priv_key@).len() == 32
                &&& crypto::seckey_valid(crypto::hex_decode_of(priv_key@))
                &&& crypto::is_hex_str(pub_key@)
                &&& crypto::hex_decode_of(pub_key@).len() == 33
                &&& crypto::pubkey_valid(crypto::hex_decode_of(pub_key@))
            },
            r is Ok ==> {
                &&& r.unwrap()@.private_key == crypto::hex_decode_of(priv_key@)
                &&& r.unwrap()@.public_key == crypto::hex_decode_of(pub_key@)
                &&& wallet_wf(r.unwrap()@)
            },
            r is Err ==> r.unwrap_err() == ChainError::BadSignature,
    {
        let sk = match crypto::hex_decode(priv_key) {
            Some(b) => b,
            None => {
                return Err(ChainError::BadSignature);
            },
        };
        let pk = match crypto::hex_decode(pub_key) {
            Some(b) => b,
            None => {
                return Err(ChainError::BadSignature);
            },
        };
        if sk.len() != 32 || pk.len() != 33 {
            return Err(ChainError::BadSignature);
        }
        match crypto::pubkey_from_secret(&sk) {
            Some(_) => {},
            None => {
                return Err(ChainError::BadSignature);
            },
        }
        if !crypto::pubkey_check(&pk) {
            return Err(ChainError::BadSignature);
        }
        Ok(Wallet { private_key: sk, public_key: pk })
    }

    /// The wallet's address: version 0 plus the hash of its public key.
    pub fn get_wallet_address(&self) -> (r: Address)
        ensures
            r@.pub_key_hash == crypto::hash160_of(self@.public_key),
            r@.version == crate::address::ADDRESS_VERSION,
            address_wf(r@),
    {
        Address::new_from_key(&self.public_key)
    }

    /// The wallet's public key bytes.
    pub fn pub_key(&self) -> (r: &Vec<u8>)
        ensures
            r@ == self@.public_key,
    {
        &self.public_key
    }

    /// The wallet's private key bytes.
    pub fn private_key(&self) -> (r: &Vec<u8>)
        ensures
            r@ == self@.private_key,
    {
        &self.private_key
    }

    /// A copy with the same keys.
    pub fn duplicate(&self) -> (r: Wallet)
        ensures
            r@ == self@,
    {
        Wallet {
            private_key: clone_bytes(&self.private_key),
            public_key: clone_bytes(&self.public_key),
        }
    }
}

/// The in-memory wallet store: wallets keyed by their base58 address string.
pub struct WalletStore {
    wallets: Vec<(String, Wallet)>,
}

impl View for WalletStore {
    type V = Seq<(Seq<char>, WalletV)>;

    closed spec fn view(&self) -> Seq<(Seq<char>, WalletV)> {
        Seq::new(self.wallets@.len(), |i: int| (self.wallets@[i].0@, self.wallets@[i].1@))
    }
}

/// Every wallet in the store is well-formed and filed under its own address.
pub open spec fn wallet_store_wf(s: Seq<(Seq<char>, WalletV)>) -> bool {
    forall|i: int|
        0 <= i < s.len() ==> {
            &&& wallet_wf((#[trigger] s[i]).1)
            &&& s[i].0 == crypto::base58_of(
                address_bytes(
                    crate::address::AddressV {
                        pub_key_hash: crypto::hash160_of(s[i].1.public_key),
                        version: crate::address::ADDRESS_VERSION,
                        checksum: crate::address::checksum_of(
                            crate::address::ADDRESS_VERSION,
                            crypto::hash160_of(s[i].1.public_key),
                        ),
                    },
                ),
            )
        }
}

impl WalletStore {
    /// An empty store.
    pub fn init_wallet_store() -> (r: WalletStore)
        ensures
            r@.len() == 0,
            wallet_store_wf(r@),
    {
        WalletStore { wallets: Vec::new() }
    }

    /// Creates a fresh wallet, files it under its address, and returns the
    /// address.
    pub fn add_wallet(&mut self) -> (r: Address)
        requires
            wallet_store_wf(old(self)@),
        ensures
            wallet_store_wf(final(self)@),
            final(self)@.len() == old(self)@.len() + 1,
            final(self)@.take(old(self)@.len() as int) == old(self)@,
            final(self)@.last().0 == crypto::base58_of(address_bytes(r@)),
            r@.pub_key_hash == crypto::hash160_of(final(self)@.last().1.public_key),
            address_wf(r@),
    {
        let w = Wallet::new();
        let addr = w.get_wallet_address();
        let key = addr.get_full_address();
        self.wallets.push((key, w));
        proof {
            let n = old(self)@.len() as int;
            assert(self@.take(n) =~= old(self)@);
            assert(addr@ == crate::address::AddressV {
                pub_key_hash: crypto::hash160_of(w@.public_key),
                version: crate::address::ADDRESS_VERSION,
                checksum: crate::address::checksum_of(
                    crate::address::ADDRESS_VERSION,
                    crypto::hash160_of(w@.public_key),
                ),
            });
            assert(self@.last() == (key@, w@));
            assert forall|i: int| 0 <= i < self@.len() implies {
                &&& wallet_wf((#[trigger] self@[i]).1)
                &&& self@[i].0 == crypto::base58_of(
                    address_bytes(
                        crate::address::AddressV {
                            pub_key_hash: crypto::hash160_of(self@[i].1.public_key),
                            version: crate::address::ADDRESS_VERSION,
                            checksum: crate::address::checksum_of(
                                crate::address::ADDRESS_VERSION,
                                crypto::hash160_of(self@[i].1.public_key),
                            ),
                        },
                    ),
                )
            } by {
                if i < n {
                    assert(self@[i] == old(self)@[i]);
                    assert(wallet_store_wf(old(self)@));
                }
            }
        }
        addr
    }

    /// Looks a wallet up by its base58 address string.
    pub fn get_local_wallet(&self, addr: &String) -> (r: Option<&Wallet>)
        ensures
            r is Some <==> exists|i: int| 0 <= i < self@.len() && (#[trigger] self@[i]).0 == addr@,
            r is Some ==> exists|i: int|
                0 <= i < self@.len() && (#[trigger] self@[i]).0 == addr@
                    && r.unwrap()@ == self@[i].1,
    {
        let mut i: usize = 0;
        while i < self.wallets.len()
            invariant
                i <= self.wallets.len(),
                self@.len() == self.wallets@.len(),
                forall|j: int| 0 <= j < i ==> (#[trigger] self@[j]).0 != addr@,
            decreases self.wallets.len() - i,
        {
            let (k, _) = &self.wallets[i];
            if k.eq(addr) {
                let (_, w) = &self.wallets[i];
                proof {
                    assert(self@[i as int].0 == addr@);
                    assert(w@ == self@[i as int].1);
                }
                return Some(w);
            }
            i = i + 1;
        }
        None
    }

    /// The addresses of all wallets in the store, in insertion order.
    pub fn get_wallets(&self) -> (r: Vec<String>)
        ensures
            r@.len() == self@.len(),
            forall|i: int| 0 <= i < r@.len() ==> (#[trigger] r@[i])@ == self@[i].0,
    {
        let mut out: Vec<String> = Vec::new();
        let mut i: usize = 0;
        while i < self.wallets.len()
            invariant
                i <= self.wallets.len(),
                self@.len() == self.wallets@.len(),
                out@.len() == i,
                forall|j: int| 0 <= j < i ==> (#[trigger] out@[j])@ == self@[j].0,
            decreases self.wallets.len() - i,
        {
            let (k, _) = &self.wallets[i];
            out.push(k.clone());
            i = i + 1;
        }
        out
    }

    /// How many wallets the store holds.
    pub fn len(&self) -> (r: usize)
        ensures
            r == self@.len(),
    {
        self.wallets.len()
    }

    /// The wallet at a position, for callers that take the first one.
    pub fn wallet_at(&self, i: usize) -> (r: &Wallet)
        requires
            i < self@.len(),
        ensures
            r@ == self@[i as int].1,
    {
        let (_, w) = &self.wallets[i];
        w
    }
}

} // verus!
