//! Transactions: the data model, the canonical length-prefixed little-endian
//! serialization that ids and signatures are computed over, signing, and
//! verification against the UTXO set.

use vstd::prelude::*;

use crate::bytes::{clone_bytes, make_zero32, push_bytes, push_u32_le, push_u64_le, u32_le, u64_le, zero32, is_zero32, zero_bytes};
use crate::crypto;
use crate::errors::ChainError;

verus! {

/// The fixed reward paid by every coinbase transaction.
pub const COINBASE_REWARD: u32 = 100;

/// The ghost image of a transaction output.
pub ghost struct TxOutputV {
    pub value: u32,
    pub pub_key_hash: Seq<u8>,
}

/// A transaction output: a value locked to a public-key hash.
#[derive(Debug)]
pub struct TxOutput {
    /// Value of output tokens; outputs cannot be split.
    pub value: u32,
    /// The recipient's public-key hash (SHA-256 then RIPEMD-160).
    pub pub_key_hash: Vec<u8>,
}

impl View for TxOutput {
    type V = TxOutputV;

    open spec fn view(&self) -> TxOutputV {
        TxOutputV { value: self.value, pub_key_hash: self.pub_key_hash@ }
    }
}

/// A well-formed output carries a 20-byte lock.
pub open spec fn tx_output_wf(o: TxOutputV) -> bool {
    o.pub_key_hash.len() == 20
}

impl TxOutput {
    /// Whether the output is locked to the given public-key hash.
    pub fn is_locked_with_key(&self, pub_key_hash: &Vec<u8>) -> (r: bool)
        ensures
            r == (self@.pub_key_hash == pub_key_hash@),
    {
        crate::bytes::bytes_eq(&self.pub_key_hash, pub_key_hash)
    }

    /// A copy with the same value and lock.
    pub fn duplicate(&self) -> (r: TxOutput)
        ensures
            r@ == self@,
    {
        TxOutput { value: self.value, pub_key_hash: clone_bytes(&self.pub_key_hash) }
    }
}

/// The ghost image of a transaction input.
pub ghost struct TxInputV {
    pub prev_tx_id: Seq<u8>,
    pub out: u32,
    pub signature: Seq<u8>,
    pub pub_key: Seq<u8>,
}

/// A transaction input: a reference to a previous output, with the spender's
/// compact signature and public key.
#[derive(Debug)]
pub struct TxInput {
    /// Id of the transaction the referenced output is inside of.
    pub prev_tx_id: Vec<u8>,
    /// Index of the output within the referenced transaction.
    pub out: u32,
    /// Compact 64-byte ECDSA signature over the trimmed transaction hash.
    pub signature: Vec<u8>,
    /// The spender's compressed public key.
    pub pub_key: Vec<u8>,
}

impl View for TxInput {
    type V = TxInputV;

    open spec fn view(&self) -> TxInputV {
        TxInputV {
            prev_tx_id: self.prev_tx_id@,
            out: self.out,
            signature: self.signature@,
            pub_key: self.pub_key@,
        }
    }
}

/// A well-formed input: 32-byte reference, 64-byte signature, 33-byte key.
pub open spec fn tx_input_wf(i: TxInputV) -> bool {
    &&& i.prev_tx_id.len() == 32
    &&& i.signature.len() == 64
    &&& i.pub_key.len() == 33
}

impl TxInput {
    /// Builds an input from its four fields.
    pub fn new(prev_tx_id: Vec<u8>, out: u32, signature: Vec<u8>, pub_key: Vec<u8>) -> (r: TxInput)
        ensures
            r@ == (TxInputV {
                prev_tx_id: prev_tx_id@,
                out,
                signature: signature@,
                pub_key: pub_key@,
            }),
    {
        TxInput { prev_tx_id, out, signature, pub_key }
    }

    /// A copy with the same fields.
    pub fn duplicate(&self) -> (r: TxInput)
        ensures
            r@ == self@,
    {
        TxInput {
            prev_tx_id: clone_bytes(&self.prev_tx_id),
            out: self.out,
            signature: clone_bytes(&self.signature),
            pub_key: clone_bytes(&self.pub_key),
        }
    }
}

/// The ghost image of a transaction.
pub ghost struct TxV {
    pub id: Seq<u8>,
    pub inputs: Seq<TxInputV>,
    pub outputs: Seq<TxOutputV>,
}

/// A transaction: an id, ordered inputs, ordered outputs.
#[derive(Debug)]
pub struct Tx {
    /// SHA-256 of the canonical serialization with the id field zeroed.
    pub id: Vec<u8>,
    pub inputs: Vec<TxInput>,
    pub outputs: Vec<TxOutput>,
}

/// The views of a sequence of inputs.
pub open spec fn inputs_view(s: Seq<TxInput>) -> Seq<TxInputV> {
    Seq::new(s.len(), |i: int| s[i]@)
}

/// The views of a sequence of outputs.
pub open spec fn outputs_view(s: Seq<TxOutput>) -> Seq<TxOutputV> {
    Seq::new(s.len(), |i: int| s[i]@)
}


/// The views of a pushed sequence are the views plus the pushed view.
pub proof fn lemma_inputs_view_push(s: Seq<TxInput>, x: TxInput)
    ensures
        inputs_view(s.push(x)) == inputs_view(s).push(x@),
{
    assert forall|m: int| 0 <= m < s.len() + 1 implies
        inputs_view(s.push(x))[m] == inputs_view(s).push(x@)[m] by {
        if m < s.len() {
            assert(s.push(x)[m] == s[m]);
        } else {
            assert(s.push(x)[m] == x);
        }
    }
    assert(inputs_view(s.push(x)) =~= inputs_view(s).push(x@));
}

/// The views of a pushed sequence are the views plus the pushed view.
pub proof fn lemma_outputs_view_push(s: Seq<TxOutput>, x: TxOutput)
    ensures
        outputs_view(s.push(x)) == outputs_view(s).push(x@),
{
    assert forall|m: int| 0 <= m < s.len() + 1 implies
        outputs_view(s.push(x))[m] == outputs_view(s).push(x@)[m] by {
        if m < s.len() {
            assert(s.push(x)[m] == s[m]);
        } else {
            assert(s.push(x)[m] == x);
        }
    }
    assert(outputs_view(s.push(x)) =~= outputs_view(s).push(x@));
}

/// A prefix one longer is the prefix plus the next element.
pub proof fn lemma_take_succ<A>(s: Seq<A>, j: int)
    requires
        0 <= j < s.len(),
    ensures
        s.take(j + 1) == s.take(j).push(s[j]),
{
    assert(s.take(j + 1) =~= s.take(j).push(s[j]));
}

impl View for Tx {
    type V = TxV;

    open spec fn view(&self) -> TxV {
        TxV {
            id: self.id@,
            inputs: inputs_view(self.inputs@),
            outputs: outputs_view(self.outputs@),
        }
    }
}

/// A well-formed transaction: 32-byte id and well-formed inputs and outputs.
pub open spec fn tx_wf(t: TxV) -> bool {
    &&& t.id.len() == 32
    &&& t.outputs.len() <= 0xffff_ffff
    &&& forall|i: int| 0 <= i < t.inputs.len() ==> tx_input_wf(#[trigger] t.inputs[i])
    &&& forall|i: int| 0 <= i < t.outputs.len() ==> tx_output_wf(#[trigger] t.outputs[i])
}

/// The canonical bytes of one input.
pub open spec fn enc_input(i: TxInputV) -> Seq<u8> {
    i.prev_tx_id + u32_le(i.out) + i.signature + i.pub_key
}

/// The canonical bytes of a sequence of inputs, in order.
pub open spec fn enc_inputs(s: Seq<TxInputV>) -> Seq<u8>
    decreases s.len(),
{
    if s.len() == 0 {
        Seq::empty()
    } else {
        enc_inputs(s.drop_last()) + enc_input(s.last())
    }
}

/// The canonical bytes of one output.
pub open spec fn enc_output(o: TxOutputV) -> Seq<u8> {
    u32_le(o.value) + o.pub_key_hash
}

/// The canonical bytes of a sequence of outputs, in order.
pub open spec fn enc_outputs(s: Seq<TxOutputV>) -> Seq<u8>
    decreases s.len(),
{
    if s.len() == 0 {
        Seq::empty()
    } else {
        enc_outputs(s.drop_last()) + enc_output(s.last())
    }
}

/// The canonical serialization of a transaction: the id, then the inputs and
/// outputs, each as a 64-bit little-endian count followed by the elements.
pub open spec fn tx_enc(t: TxV) -> Seq<u8> {
    t.id + u64_le(t.inputs.len() as u64) + enc_inputs(t.inputs)
        + u64_le(t.outputs.len() as u64) + enc_outputs(t.outputs)
}

/// The same transaction with its id zeroed, the form that is hashed.
pub open spec fn zeroed_id(t: TxV) -> TxV {
    TxV { id: zero32(), inputs: t.inputs, outputs: t.outputs }
}

/// The id of a transaction: SHA-256 over its canonical serialization with
/// the id field zeroed.
pub open spec fn tx_hash_of(t: TxV) -> Seq<u8> {
    crypto::sha256_of(tx_enc(zeroed_id(t)))
}

/// 64 zero bytes: the placeholder signature of trimmed and unsigned inputs.
pub open spec fn zero64() -> Seq<u8> {
    Seq::new(64, |i: int| 0u8)
}

/// The 32-byte constant secret key the dummy public key is derived from.
pub open spec fn ones32() -> Seq<u8> {
    Seq::new(32, |i: int| 1u8)
}

/// The fixed dummy public key placed on trimmed inputs: the public key of
/// the constant secret key of 32 one-bytes.
pub open spec fn dummy_pk_bytes() -> Seq<u8> {
    if crypto::seckey_valid(ones32()) {
        crypto::pubkey_of(ones32())
    } else {
        Seq::new(33, |i: int| 0u8)
    }
}

/// The trimmed form of a transaction: id zeroed, every input carrying the
/// zero signature and the dummy public key, outputs unchanged. Signing and
/// verification both hash exactly this form.
pub open spec fn trimmed(t: TxV) -> TxV {
    TxV {
        id: zero32(),
        inputs: Seq::new(
            t.inputs.len(),
            |i: int| TxInputV {
                prev_tx_id: t.inputs[i].prev_tx_id,
                out: t.inputs[i].out,
                signature: zero64(),
                pub_key: dummy_pk_bytes(),
            },
        ),
        outputs: t.outputs,
    }
}

/// The message every input of a transaction signs: the hash of the trimmed
/// form (whose id is already zero).
pub open spec fn tx_sighash(t: TxV) -> Seq<u8> {
    crypto::sha256_of(tx_enc(trimmed(t)))
}

/// A coinbase transaction: one input referencing the zero id at the largest
/// index.
pub open spec fn is_coinbase_v(t: TxV) -> bool {
    t.inputs.len() == 1 && t.inputs[0].prev_tx_id == zero32() && t.inputs[0].out == u32::MAX
}

/// The transaction with every input's signature replaced by the signature of
/// its sighash under `sk`.
pub open spec fn signed(t: TxV, sk: Seq<u8>) -> TxV {
    TxV {
        id: t.id,
        inputs: Seq::new(
            t.inputs.len(),
            |i: int| TxInputV {
                prev_tx_id: t.inputs[i].prev_tx_id,
                out: t.inputs[i].out,
                signature: crypto::sign_of(tx_sighash(t), sk),
                pub_key: t.inputs[i].pub_key,
            },
        ),
        outputs: t.outputs,
    }
}

/// Builds the fixed dummy public key placed on trimmed inputs.
fn dummy_pub_key() -> (r: Vec<u8>)
    ensures
        r@ == dummy_pk_bytes(),
{
    let mut ones: Vec<u8> = Vec::new();
    let mut i: usize = 0;
    while i < 32
        invariant
            i <= 32,
            ones@.len() == i,
            forall|j: int| 0 <= j < i ==> ones@[j] == 1u8,
        decreases 32 - i,
    {
        ones.push(1u8);
        i = i + 1;
    }
    proof {
        assert(ones@ =~= ones32());
    }
    match crypto::pubkey_from_secret(&ones) {
        Some(pk) => pk,
        None => {
            let z = zero_bytes(33);
            proof {
                assert(z@ =~= Seq::new(33, |j: int| 0u8));
            }
            z
        },
    }
}

impl Tx {
    /// Serializes the transaction canonically with its id field zeroed.
    fn encode_zeroed(&self) -> (r: Vec<u8>)
        ensures
            r@ == tx_enc(zeroed_id(self@)),
    {
        let mut out: Vec<u8> = Vec::new();
        let mut z = make_zero32();
        out.append(&mut z);
        push_u64_le(&mut out, self.inputs.len() as u64);
        let ghost zt = zeroed_id(self@);
        let ghost prefix = zero32() + u64_le(zt.inputs.len() as u64);
        assert(out@ =~= prefix);
        let mut i: usize = 0;
        while i < self.inputs.len()
            invariant
                i <= self.inputs@.len(),
                zt == zeroed_id(self@),
                prefix == zero32() + u64_le(zt.inputs.len() as u64),
                zt.inputs == inputs_view(self.inputs@),
                out@ == prefix + enc_inputs(zt.inputs.take(i as int)),
            decreases self.inputs@.len() - i,
        {
            let inp = &self.inputs[i];
            push_bytes(&mut out, &inp.prev_tx_id);
            push_u32_le(&mut out, inp.out);
            push_bytes(&mut out, &inp.signature);
            push_bytes(&mut out, &inp.pub_key);
            proof {
                let k = i as int;
                assert(zt.inputs.take(k + 1).drop_last() =~= zt.inputs.take(k));
                assert(zt.inputs.take(k + 1).last() == zt.inputs[k]);
                assert(enc_inputs(zt.inputs.take(k + 1))
                    == enc_inputs(zt.inputs.take(k)) + enc_input(zt.inputs[k]));
                assert(enc_input(zt.inputs[k])
                    =~= inp.prev_tx_id@ + u32_le(inp.out) + inp.signature@ + inp.pub_key@);
                assert(out@ =~= prefix + enc_inputs(zt.inputs.take(k + 1)));
            }
            i = i + 1;
        }
        proof {
            assert(zt.inputs.take(zt.inputs.len() as int) =~= zt.inputs);
        }
        push_u64_le(&mut out, self.outputs.len() as u64);
        let ghost prefix2 = prefix + enc_inputs(zt.inputs) + u64_le(zt.outputs.len() as u64);
        assert(out@ =~= prefix2);
        let mut k: usize = 0;
        while k < self.outputs.len()
            invariant
                k <= self.outputs@.len(),
                zt == zeroed_id(self@),
                zt.outputs == outputs_view(self.outputs@),
                prefix2 == prefix + enc_inputs(zt.inputs) + u64_le(zt.outputs.len() as u64),
                out@ == prefix2 + enc_outputs(zt.outputs.take(k as int)),
            decreases self.outputs@.len() - k,
        {
            let o = &self.outputs[k];
            push_u32_le(&mut out, o.value);
            push_bytes(&mut out, &o.pub_key_hash);
            proof {
                let j = k as int;
                assert(zt.outputs.take(j + 1).drop_last() =~= zt.outputs.take(j));
                assert(zt.outputs.take(j + 1).last() == zt.outputs[j]);
                assert(enc_outputs(zt.outputs.take(j + 1))
                    == enc_outputs(zt.outputs.take(j)) + enc_output(zt.outputs[j]));
                assert(enc_output(zt.outputs[j]) =~= u32_le(o.value) + o.pub_key_hash@);
                assert(out@ =~= prefix2 + enc_outputs(zt.outputs.take(j + 1)));
            }
            k = k + 1;
        }
        proof {
            assert(zt.outputs.take(zt.outputs.len() as int) =~= zt.outputs);
            assert(out@ =~= tx_enc(zt));
        }
        out
    }

    /// The transaction's id: SHA-256 over the canonical serialization with
    /// the id field zeroed.
    pub fn hash(&self) -> (r: Vec<u8>)
        ensures
            r@ == tx_hash_of(self@),
            r@.len() == 32,
    {
        let enc = self.encode_zeroed();
        crypto::sha256(&enc)
    }

    /// The trimmed copy hashed for signing and verification: id zeroed and
    /// every input carrying the zero signature and the dummy public key, so
    /// that both sides of a transaction hash byte-identical forms.
    pub fn trimmed_copy(&self) -> (r: Tx)
        ensures
            r@ == trimmed(self@),
    {
        let mut trimmed_inputs: Vec<TxInput> = Vec::new();
        let mut i: usize = 0;
        while i < self.inputs.len()
            invariant
                i <= self.inputs@.len(),
                inputs_view(trimmed_inputs@) =~= trimmed(self@).inputs.take(i as int),
            decreases self.inputs@.len() - i,
        {
            let inp = &self.inputs[i];
            let sig = zero_bytes(64);
            proof {
                assert(sig@ =~= zero64());
            }
            let ghost prev = trimmed_inputs@;
            let newin = TxInput {
                prev_tx_id: clone_bytes(&inp.prev_tx_id),
                out: inp.out,
                signature: sig,
                pub_key: dummy_pub_key(),
            };
            trimmed_inputs.push(newin);
            proof {
                let j = i as int;
                lemma_inputs_view_push(prev, newin);
                assert(newin@ == trimmed(self@).inputs[j]);
                lemma_take_succ(trimmed(self@).inputs, j);
            }
            i = i + 1;
        }
        let mut outputs: Vec<TxOutput> = Vec::new();
        let mut k: usize = 0;
        while k < self.outputs.len()
            invariant
                k <= self.outputs@.len(),
                outputs_view(outputs@) =~= outputs_view(self.outputs@).take(k as int),
            decreases self.outputs@.len() - k,
        {
            let o = self.outputs[k].duplicate();
            let ghost prev = outputs@;
            outputs.push(o);
            proof {
                let j = k as int;
                lemma_outputs_view_push(prev, o);
                assert(o@ == outputs_view(self.outputs@)[j]);
                lemma_take_succ(outputs_view(self.outputs@), j);
            }
            k = k + 1;
        }
        let r = Tx { id: make_zero32(), inputs: trimmed_inputs, outputs };
        proof {
            assert(inputs_view(r.inputs@) =~= trimmed(self@).inputs);
            assert(outputs_view(r.outputs@) =~= trimmed(self@).outputs);
            assert(r@ == trimmed(self@));
        }
        r
    }

    /// Whether this is a coinbase transaction: exactly one input, referencing
    /// the all-zero transaction id at the largest output index.
    pub fn is_coinbase(&self) -> (r: bool)
        ensures
            r == is_coinbase_v(self@),
    {
        self.inputs.len() == 1 && is_zero32(&self.inputs[0].prev_tx_id)
            && self.inputs[0].out == u32::MAX
    }

    /// A deep copy with the same view.
    pub fn duplicate(&self) -> (r: Tx)
        ensures
            r@ == self@,
    {
        let mut inputs: Vec<TxInput> = Vec::new();
        let mut i: usize = 0;
        while i < self.inputs.len()
            invariant
                i <= self.inputs@.len(),
                inputs_view(inputs@) =~= inputs_view(self.inputs@).take(i as int),
            decreases self.inputs@.len() - i,
        {
            let x = self.inputs[i].duplicate();
            let ghost prev = inputs@;
            inputs.push(x);
            proof {
                let j = i as int;
                lemma_inputs_view_push(prev, x);
                assert(x@ == inputs_view(self.inputs@)[j]);
                lemma_take_succ(inputs_view(self.inputs@), j);
            }
            i = i + 1;
        }
        let mut outputs: Vec<TxOutput> = Vec::new();
        let mut k: usize = 0;
        while k < self.outputs.len()
            invariant
                k <= self.outputs@.len(),
                outputs_view(outputs@) =~= outputs_view(self.outputs@).take(k as int),
            decreases self.outputs@.len() - k,
        {
            let o = self.outputs[k].duplicate();
            let ghost prev = outputs@;
            outputs.push(o);
            proof {
                let j = k as int;
                lemma_outputs_view_push(prev, o);
                assert(o@ == outputs_view(self.outputs@)[j]);
                lemma_take_succ(outputs_view(self.outputs@), j);
            }
            k = k + 1;
        }
        let r = Tx { id: clone_bytes(&self.id), inputs, outputs };
        proof {
            assert(inputs_view(r.inputs@) =~= inputs_view(self.inputs@));
            assert(outputs_view(r.outputs@) =~= outputs_view(self.outputs@));
            assert(r@ == self@);
        }
        r
    }

    /// Signs every input with the given private key over the hash of the
    /// trimmed copy. A coinbase transaction is returned unchanged. Fails with
    /// `BadSignature` exactly when the key is not a valid 32-byte secret key.
    pub fn sign(&mut self, priv_key: &Vec<u8>) -> (r: Result<(), ChainError>)
        ensures
            is_coinbase_v(old(self)@) ==> r is Ok && final(self)@ == old(self)@,
            !is_coinbase_v(old(self)@) ==> {
                &&& (r is Ok <==> priv_key@.len() == 32 && crypto::seckey_valid(priv_key@))
                &&& (r is Ok ==> final(self)@ == signed(old(self)@, priv_key@))
                &&& (r is Err ==> final(self)@ == old(self)@
                    && r.unwrap_err() == ChainError::BadSignature)
            },
    {
        if self.is_coinbase() {
            return Ok(());
        }
        let trimmed_tx = self.trimmed_copy();
        let msg = trimmed_tx.hash();
        let sig = match crypto::ecdsa_sign(&msg, priv_key) {
            Some(s) => s,
            None => {
                return Err(ChainError::BadSignature);
            },
        };
        let mut new_inputs: Vec<TxInput> = Vec::new();
        let mut i: usize = 0;
        while i < self.inputs.len()
            invariant
                i <= self.inputs@.len(),
                sig@ == crypto::sign_of(tx_sighash(old(self)@), priv_key@),
                self.inputs@ == old(self).inputs@,
                self.id@ == old(self).id@,
                self.outputs@ == old(self).outputs@,
                inputs_view(new_inputs@) =~= signed(old(self)@, priv_key@).inputs.take(i as int),
            decreases self.inputs@.len() - i,
        {
            let inp = &self.inputs[i];
            let ghost prev = new_inputs@;
            let newin = TxInput {
                prev_tx_id: clone_bytes(&inp.prev_tx_id),
                out: inp.out,
                signature: clone_bytes(&sig),
                pub_key: clone_bytes(&inp.pub_key),
            };
            new_inputs.push(newin);
            proof {
                let j = i as int;
                lemma_inputs_view_push(prev, newin);
                assert(newin@ == signed(old(self)@, priv_key@).inputs[j]);
                lemma_take_succ(signed(old(self)@, priv_key@).inputs, j);
            }
            i = i + 1;
        }
        self.inputs = new_inputs;
        proof {
            assert(inputs_view(self.inputs@) =~= signed(old(self)@, priv_key@).inputs);
            assert(outputs_view(self.outputs@) =~= signed(old(self)@, priv_key@).outputs);
            assert(self@ == signed(old(self)@, priv_key@));
        }
        Ok(())
    }
}


/// The verdict of transaction verification.
#[derive(Clone, Copy, Debug, PartialEq, Eq, Structural)]
pub enum TxVerdict {
    /// Every input is backed by a UTXO, keyed and signed correctly.
    Valid,
    /// Some input references a UTXO that does not exist.
    UnknownInput,
    /// Some input's public key does not hash to the referenced output's lock.
    WrongKey,
    /// Some input's signature does not verify.
    BadSignature,
}

/// The verdict of one input of `t` against the UTXO map `u`.
pub open spec fn input_verdict(t: TxV, u: Map<(Seq<u8>, u32), TxOutputV>, p: int) -> TxVerdict
    recommends
        0 <= p < t.inputs.len(),
{
    let inp = t.inputs[p];
    if !u.contains_key((inp.prev_tx_id, inp.out)) {
        TxVerdict::UnknownInput
    } else if crypto::hash160_of(inp.pub_key) != u[(inp.prev_tx_id, inp.out)].pub_key_hash {
        TxVerdict::WrongKey
    } else if !crypto::sig_valid(tx_sighash(t), inp.signature, inp.pub_key) {
        TxVerdict::BadSignature
    } else {
        TxVerdict::Valid
    }
}

/// The first non-valid verdict among the inputs from `k` on, else `Valid`.
pub open spec fn verdict_from(t: TxV, u: Map<(Seq<u8>, u32), TxOutputV>, k: int) -> TxVerdict
    decreases t.inputs.len() - k,
{
    if k < 0 || k >= t.inputs.len() {
        TxVerdict::Valid
    } else if input_verdict(t, u, k) != TxVerdict::Valid {
        input_verdict(t, u, k)
    } else {
        verdict_from(t, u, k + 1)
    }
}

/// The verdict of a whole transaction: a coinbase transaction verifies
/// trivially; any other is checked input by input against the UTXO map.
pub open spec fn tx_verdict(t: TxV, u: Map<(Seq<u8>, u32), TxOutputV>) -> TxVerdict {
    if is_coinbase_v(t) {
        TxVerdict::Valid
    } else {
        verdict_from(t, u, 0)
    }
}

/// Whether a transaction verifies against the UTXO map.
pub open spec fn tx_valid(t: TxV, u: Map<(Seq<u8>, u32), TxOutputV>) -> bool {
    tx_verdict(t, u) == TxVerdict::Valid
}

/// Verification against the current UTXO set.
pub trait TxVerify {
    /// What verification of this value means over the UTXO map.
    spec fn verdict_spec(&self, u: Map<(Seq<u8>, u32), TxOutputV>) -> TxVerdict;

    /// Verifies against the UTXO set, returning the first failure found.
    fn verify(&self, utxos: &crate::utxo::UtxoSet) -> (r: TxVerdict)
        requires
            utxos.wf(),
        ensures
            r == self.verdict_spec(utxos.umap()),
    ;
}

impl TxVerify for Tx {
    open spec fn verdict_spec(&self, u: Map<(Seq<u8>, u32), TxOutputV>) -> TxVerdict {
        tx_verdict(self@, u)
    }

    /// Verifies every input: the referenced UTXO must exist, its lock must be
    /// the hash of the input's public key, and the input's signature must
    /// verify over the trimmed transaction hash under that key.
    fn verify(&self, utxos: &crate::utxo::UtxoSet) -> (r: TxVerdict)
    {
        if self.is_coinbase() {
            return TxVerdict::Valid;
        }
        let trimmed_tx = self.trimmed_copy();
        let msg = trimmed_tx.hash();
        proof {
            assert(zeroed_id(trimmed(self@)) == trimmed(self@));
            assert(msg@ == tx_sighash(self@));
        }
        let ghost u = utxos.umap();
        let mut p: usize = 0;
        while p < self.inputs.len()
            invariant
                utxos.wf(),
                u == utxos.umap(),
                !is_coinbase_v(self@),
                msg@ == tx_sighash(self@),
                msg@.len() == 32,
                p <= self.inputs@.len(),
                self@.inputs.len() == self.inputs@.len(),
                verdict_from(self@, u, 0) == verdict_from(self@, u, p as int),
            decreases self.inputs@.len() - p,
        {
            let inp = &self.inputs[p];
            proof {
                assert(self@.inputs[p as int] == inp@);
            }
            let referenced = utxos.get_utxo(&inp.prev_tx_id, inp.out);
            match referenced {
                None => {
                    proof {
                        assert(input_verdict(self@, u, p as int) == TxVerdict::UnknownInput);
                    }
                    return TxVerdict::UnknownInput;
                },
                Some(prev_out) => {
                    let computed = crate::address::hash_pub_key(&inp.pub_key);
                    if !crate::bytes::bytes_eq(&computed, &prev_out.pub_key_hash) {
                        proof {
                            assert(input_verdict(self@, u, p as int) == TxVerdict::WrongKey);
                        }
                        return TxVerdict::WrongKey;
                    }
                    if !crypto::ecdsa_verify(&msg, &inp.signature, &inp.pub_key) {
                        proof {
                            assert(input_verdict(self@, u, p as int) == TxVerdict::BadSignature);
                        }
                        return TxVerdict::BadSignature;
                    }
                    proof {
                        assert(input_verdict(self@, u, p as int) == TxVerdict::Valid);
                    }
                },
            }
            p = p + 1;
        }
        TxVerdict::Valid
    }
}

/// Creates the coinbase transaction of a block: one synthetic input carrying
/// an ephemeral random key and signature, and one output paying the fixed
/// reward to the given address.
pub fn coinbase_tx(reward_addr: &crate::address::Address) -> (r: Tx)
    requires
        reward_addr@.pub_key_hash.len() == 20,
    ensures
        is_coinbase_v(r@),
        r@.outputs.len() == 1,
        r@.outputs[0].value == COINBASE_REWARD,
        r@.outputs[0].pub_key_hash == reward_addr@.pub_key_hash,
        r@.id == tx_hash_of(r@),
        tx_wf(r@),
{
    let rand_data = crypto::random_bytes_32();
    let (secret_key, public_key) = crypto::generate_keypair();
    let signature = match crypto::ecdsa_sign(&rand_data, &secret_key) {
        Some(sig) => sig,
        None => {
            proof {
                assert(false);
            }
            crate::bytes::zero_bytes(64)
        },
    };
    let tx_in = TxInput {
        prev_tx_id: make_zero32(),
        out: u32::MAX,
        signature,
        pub_key: public_key,
    };
    let tx_out = TxOutput {
        value: COINBASE_REWARD,
        pub_key_hash: clone_bytes(reward_addr.pub_key_hash()),
    };
    let mut inputs: Vec<TxInput> = Vec::new();
    inputs.push(tx_in);
    let mut outputs: Vec<TxOutput> = Vec::new();
    outputs.push(tx_out);
    let mut tx = Tx { id: make_zero32(), inputs, outputs };
    let h = tx.hash();
    let ghost before = tx@;
    tx.id = h;
    proof {
        assert(tx@.inputs =~= before.inputs);
        assert(tx@.outputs =~= before.outputs);
        assert(zeroed_id(tx@) == zeroed_id(before));
        assert(tx@.id == tx_hash_of(tx@));
        assert(tx@.inputs[0].prev_tx_id == zero32());
    }
    tx
}

/// The unsigned inputs a payment builds: one per selected entry, carrying the
/// sender's public key and a placeholder signature.
pub open spec fn unsigned_inputs_of(s: Seq<crate::utxo::UtxoEntryV>, pk: Seq<u8>) -> Seq<TxInputV> {
    Seq::new(
        s.len(),
        |i: int| TxInputV {
            prev_tx_id: s[i].tx_id,
            out: s[i].out,
            signature: zero64(),
            pub_key: pk,
        },
    )
}

/// The outputs of a payment: the paid value locked to the recipient, and a
/// change output back to the sender exactly when the inputs sum to more.
pub open spec fn payment_outputs(value: u32, to_pkh: Seq<u8>, sum: int, change_pkh: Seq<u8>) -> Seq<
    TxOutputV,
> {
    if sum > value {
        seq![
            TxOutputV { value, pub_key_hash: to_pkh },
            TxOutputV { value: (sum - value) as u32, pub_key_hash: change_pkh },
        ]
    } else {
        seq![TxOutputV { value, pub_key_hash: to_pkh }]
    }
}

/// The payment transaction before its id is set and before signing.
pub open spec fn built_payment_tx(
    s: Seq<crate::utxo::UtxoEntryV>,
    pk: Seq<u8>,
    value: u32,
    to_pkh: Seq<u8>,
    change_pkh: Seq<u8>,
) -> TxV {
    TxV {
        id: zero32(),
        inputs: unsigned_inputs_of(s, pk),
        outputs: payment_outputs(value, to_pkh, crate::utxo::sum_entries(s), change_pkh),
    }
}

/// The finished payment transaction: the built transaction with its id set,
/// then signed (a transaction that happens to have the coinbase shape is not
/// signed, as signing leaves coinbase transactions alone).
pub open spec fn payment_tx_result(
    s: Seq<crate::utxo::UtxoEntryV>,
    pk: Seq<u8>,
    value: u32,
    to_pkh: Seq<u8>,
    change_pkh: Seq<u8>,
    sk: Seq<u8>,
) -> TxV {
    let b = built_payment_tx(s, pk, value, to_pkh, change_pkh);
    let with_id = TxV { id: tx_hash_of(b), inputs: b.inputs, outputs: b.outputs };
    if is_coinbase_v(with_id) {
        with_id
    } else {
        signed(with_id, sk)
    }
}

impl Tx {
    /// Builds and signs a payment: one input per spendable entry, one output
    /// paying `value` to the recipient, and a change output exactly when the
    /// inputs sum to more than `value`. Fails with `InsufficientFunds` when
    /// they sum to less, and with `BadSignature` when the sender's key is not
    /// a valid secret key.
    pub fn new(
        from_wallet: &crate::wallet::Wallet,
        to_address: &crate::address::Address,
        value: u32,
        spendable_txos: &crate::utxo::UtxoSet,
    ) -> (r: Result<Tx, ChainError>)
        requires
            crate::utxo::sum_entries(spendable_txos@) <= u32::MAX,
            to_address@.pub_key_hash.len() == 20,
        ensures
            r is Err <==> crate::utxo::sum_entries(spendable_txos@) < value
                || (!is_coinbase_v(
                    built_payment_tx(
                        spendable_txos@,
                        from_wallet@.public_key,
                        value,
                        to_address@.pub_key_hash,
                        crypto::hash160_of(from_wallet@.public_key),
                    ),
                ) && !(from_wallet@.private_key.len() == 32
                && crypto::seckey_valid(from_wallet@.private_key))),
            r is Err && crate::utxo::sum_entries(spendable_txos@) < value
                ==> r.unwrap_err() == ChainError::InsufficientFunds,
            r is Err && crate::utxo::sum_entries(spendable_txos@) >= value
                ==> r.unwrap_err() == ChainError::BadSignature,
            r is Ok ==> r.unwrap()@ == payment_tx_result(
                spendable_txos@,
                from_wallet@.public_key,
                value,
                to_address@.pub_key_hash,
                crypto::hash160_of(from_wallet@.public_key),
                from_wallet@.private_key,
            ),
            r is Ok && crate::utxo::sum_entries(spendable_txos@) == value
                ==> r.unwrap()@.outputs.len() == 1,
            r is Ok && crate::utxo::sum_entries(spendable_txos@) > value
                ==> r.unwrap()@.outputs.len() == 2 && r.unwrap()@.outputs[1].value
                    == crate::utxo::sum_entries(spendable_txos@) - value,
    {
        let ghost sv = spendable_txos@;
        let ghost built = built_payment_tx(
            sv,
            from_wallet@.public_key,
            value,
            to_address@.pub_key_hash,
            crypto::hash160_of(from_wallet@.public_key),
        );
        let mut inputs: Vec<TxInput> = Vec::new();
        let mut sum: u32 = 0;
        let mut i: usize = 0;
        while i < spendable_txos.len()
            invariant
                sv == spendable_txos@,
                crate::utxo::sum_entries(sv) <= u32::MAX,
                i <= sv.len(),
                sum == crate::utxo::sum_entries(sv.take(i as int)),
                inputs_view(inputs@) == unsigned_inputs_of(sv, from_wallet@.public_key).take(
                    i as int,
                ),
            decreases sv.len() - i,
        {
            let e = spendable_txos.entry_at(i);
            proof {
                crate::utxo::lemma_sum_entries_prefix(sv, i + 1);
                assert(sv.take(i + 1).drop_last() =~= sv.take(i as int));
                assert(sv.take(i + 1).last() == sv[i as int]);
            }
            let sig = zero_bytes(64);
            proof {
                assert(sig@ =~= zero64());
            }
            let ghost prev = inputs@;
            let newin = TxInput {
                prev_tx_id: clone_bytes(&e.tx_id),
                out: e.out,
                signature: sig,
                pub_key: clone_bytes(from_wallet.pub_key()),
            };
            inputs.push(newin);
            proof {
                lemma_inputs_view_push(prev, newin);
                assert(newin@ == unsigned_inputs_of(sv, from_wallet@.public_key)[i as int]);
                lemma_take_succ(unsigned_inputs_of(sv, from_wallet@.public_key), i as int);
            }
            sum = sum + e.output.value;
            i = i + 1;
        }
        proof {
            assert(sv.take(sv.len() as int) =~= sv);
            assert(unsigned_inputs_of(sv, from_wallet@.public_key).take(sv.len() as int)
                =~= unsigned_inputs_of(sv, from_wallet@.public_key));
        }
        if sum < value {
            return Err(ChainError::InsufficientFunds);
        }
        let mut outputs: Vec<TxOutput> = Vec::new();
        outputs.push(TxOutput {
            value,
            pub_key_hash: clone_bytes(to_address.pub_key_hash()),
        });
        if sum > value {
            let change_addr = from_wallet.get_wallet_address();
            outputs.push(TxOutput {
                value: sum - value,
                pub_key_hash: clone_bytes(change_addr.pub_key_hash()),
            });
        }
        proof {
            assert(outputs_view(outputs@) =~= built.outputs);
        }
        let mut new_tx = Tx { id: make_zero32(), inputs, outputs };
        proof {
            assert(new_tx@ == built);
        }
        let h = new_tx.hash();
        let ghost before = new_tx@;
        new_tx.id = h;
        proof {
            assert(new_tx@.inputs =~= before.inputs);
            assert(new_tx@.outputs =~= before.outputs);
            assert(zeroed_id(new_tx@) == zeroed_id(before));
            assert(new_tx@ == (TxV { id: tx_hash_of(built), inputs: built.inputs, outputs: built.outputs }));
            assert(!is_coinbase_v(new_tx@) ==> trimmed(new_tx@) == trimmed(new_tx@));
        }
        let ghost unsigned = new_tx@;
        match new_tx.sign(from_wallet.private_key()) {
            Ok(_) => {},
            Err(_) => {
                return Err(ChainError::BadSignature);
            },
        }
        Ok(new_tx)
    }
}

} // verus!
