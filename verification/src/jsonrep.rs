//! The public JSON-facing representations: blocks and transactions with
//! hex-encoded byte fields, the UTXO-set form the REST surface serves, and
//! the computational halves of the REST and CLI handlers. Serializing these
//! plain structs to wire JSON is the shell's job.

use vstd::prelude::*;

use crate::address::Address;
use crate::block::Block;
use crate::bytes::clone_bytes;
use crate::chain::{chain_at, node_chain_wf};
use crate::crypto;
use crate::errors::ChainError;
use crate::store::NodeState;
use crate::tx::{Tx, TxInput, TxOutput, TxV, tx_wf};
use crate::utxo::{UtxoEntry, UtxoSet, outputs_locked_by, sum_values, sum_output_values};
use crate::wallet::WalletStore;

verus! {

/// A transaction input with hex-encoded byte fields.
#[derive(Debug)]
pub struct TxInputJson {
    pub prev_tx_id: String,
    pub out: u32,
    /// DER-encoded signature, hex.
    pub signature: String,
    pub pub_key: String,
}

/// A transaction output with a hex-encoded lock.
#[derive(Debug)]
pub struct TxOutputJson {
    pub value: u32,
    pub pub_key_hash: String,
}

/// A transaction with hex-encoded byte fields.
#[derive(Debug)]
pub struct TxJson {
    pub id: String,
    pub inputs: Vec<TxInputJson>,
    pub outputs: Vec<TxOutputJson>,
}

/// A block as the chain query serves it.
#[derive(Debug)]
pub struct BlockJson {
    pub height: u32,
    pub hash: String,
    pub prev_hash: String,
    pub timestamp: u64,
    pub nonce: u32,
    pub txs: Option<Vec<TxJson>>,
}

/// The query parameters of the spendable-UTXO endpoint.
#[derive(Debug)]
pub struct UTXOQuery {
    pub address: String,
    pub amount: u32,
}

/// The query parameters of the chain endpoint.
#[derive(Debug)]
pub struct ChainQuery {
    pub show_txs: Option<bool>,
}

/// The error body REST endpoints return.
#[derive(Debug)]
pub struct ErrorResponse {
    pub error: String,
    pub code: u16,
}

impl ErrorResponse {
    /// Builds the error body for a kernel error: admission failures are
    /// client errors, store failures are server errors.
    pub fn from_chain_error(e: &ChainError) -> (r: ErrorResponse)
        ensures
            r.code == (match e {
                ChainError::StoreError => 500u16,
                ChainError::RollbackFailed => 500u16,
                ChainError::StaleBlock => 500u16,
                _ => 400u16,
            }),
    {
        let code: u16 = match e {
            ChainError::StoreError => 500,
            ChainError::RollbackFailed => 500,
            ChainError::StaleBlock => 500,
            _ => 400,
        };
        ErrorResponse { error: e.message().to_string(), code }
    }
}

/// The JSON image of one unspent output.
#[derive(Debug)]
pub struct UtxoJsonEntry {
    pub tx_id: String,
    pub out: u32,
    pub output: TxOutputJson,
}

/// Whether a JSON output is the hex form of an output.
pub open spec fn output_json_matches(j: &TxOutputJson, o: crate::tx::TxOutputV) -> bool {
    &&& j.value == o.value
    &&& j.pub_key_hash@ == crypto::hex_of(o.pub_key_hash)
}

/// Whether a JSON transaction is the hex form of a transaction.
pub open spec fn tx_json_matches(j: &TxJson, t: TxV) -> bool {
    &&& j.id@ == crypto::hex_of(t.id)
    &&& j.inputs@.len() == t.inputs.len()
    &&& forall|p: int|
        0 <= p < t.inputs.len() ==> (#[trigger] j.inputs@[p]).prev_tx_id@ == crypto::hex_of(
            t.inputs[p].prev_tx_id,
        ) && j.inputs@[p].out == t.inputs[p].out
    &&& j.outputs@.len() == t.outputs.len()
    &&& forall|k: int| 0 <= k < t.outputs.len() ==> output_json_matches(&(#[trigger] j.outputs@[k]), t.outputs[k])
}

/// Whether one JSON UTXO entry decodes: a 32-byte hex id and a decodable
/// output.
pub open spec fn utxo_json_ok(e: &UtxoJsonEntry) -> bool {
    &&& crypto::is_hex_str(e.tx_id@)
    &&& crypto::hex_decode_of(e.tx_id@).len() == 32
    &&& output_json_ok(&e.output)
}

/// Whether one JSON input decodes: hex fields of exact widths, a DER
/// signature that converts to compact form, a public key that parses.
pub open spec fn input_json_ok(j: &TxInputJson) -> bool {
    &&& crypto::is_hex_str(j.prev_tx_id@)
    &&& crypto::hex_decode_of(j.prev_tx_id@).len() == 32
    &&& crypto::is_hex_str(j.signature@)
    &&& crypto::compact_of_der(crypto::hex_decode_of(j.signature@)) is Some
    &&& crypto::is_hex_str(j.pub_key@)
    &&& crypto::hex_decode_of(j.pub_key@).len() == 33
    &&& crypto::pubkey_valid(crypto::hex_decode_of(j.pub_key@))
}

/// Whether one JSON output decodes: a hex lock of exactly 20 bytes.
pub open spec fn output_json_ok(j: &TxOutputJson) -> bool {
    &&& crypto::is_hex_str(j.pub_key_hash@)
    &&& crypto::hex_decode_of(j.pub_key_hash@).len() == 20
}

/// Whether a whole JSON transaction decodes.
pub open spec fn tx_json_ok(j: &TxJson) -> bool {
    &&& crypto::is_hex_str(j.id@)
    &&& crypto::hex_decode_of(j.id@).len() == 32
    &&& j.outputs@.len() <= 0xffff_ffff
    &&& forall|p: int| 0 <= p < j.inputs@.len() ==> input_json_ok(&(#[trigger] j.inputs@[p]))
    &&& forall|k: int| 0 <= k < j.outputs@.len() ==> output_json_ok(&(#[trigger] j.outputs@[k]))
}

/// The transaction a decodable JSON payload denotes.
pub open spec fn tx_json_tx(j: &TxJson) -> TxV
    recommends
        tx_json_ok(j),
{
    TxV {
        id: crypto::hex_decode_of(j.id@),
        inputs: Seq::new(
            j.inputs@.len(),
            |p: int| crate::tx::TxInputV {
                prev_tx_id: crypto::hex_decode_of(j.inputs@[p].prev_tx_id@),
                out: j.inputs@[p].out,
                signature: crypto::compact_of_der(
                    crypto::hex_decode_of(j.inputs@[p].signature@),
                ).unwrap(),
                pub_key: crypto::hex_decode_of(j.inputs@[p].pub_key@),
            },
        ),
        outputs: Seq::new(
            j.outputs@.len(),
            |k: int| crate::tx::TxOutputV {
                value: j.outputs@[k].value,
                pub_key_hash: crypto::hex_decode_of(j.outputs@[k].pub_key_hash@),
            },
        ),
    }
}

/// Renders one output in hex.
fn output_to_json(o: &TxOutput) -> (r: TxOutputJson)
    ensures
        output_json_matches(&r, o@),
{
    TxOutputJson { value: o.value, pub_key_hash: crypto::hex_encode(&o.pub_key_hash) }
}

/// Renders one transaction in hex. The wire signature field carries the hex
/// of the compact signature bytes.
fn tx_to_json(t: &Tx) -> (r: TxJson)
    ensures
        tx_json_matches(&r, t@),
{
    let mut inputs: Vec<TxInputJson> = Vec::new();
    let mut p: usize = 0;
    while p < t.inputs.len()
        invariant
            p <= t.inputs@.len(),
            t@.inputs.len() == t.inputs@.len(),
            inputs@.len() == p,
            forall|q: int|
                0 <= q < p ==> (#[trigger] inputs@[q]).prev_tx_id@ == crypto::hex_of(
                    t@.inputs[q].prev_tx_id,
                ) && inputs@[q].out == t@.inputs[q].out,
        decreases t.inputs@.len() - p,
    {
        let inp = &t.inputs[p];
        inputs.push(TxInputJson {
            prev_tx_id: crypto::hex_encode(&inp.prev_tx_id),
            out: inp.out,
            signature: crypto::hex_encode(&inp.signature),
            pub_key: crypto::hex_encode(&inp.pub_key),
        });
        p = p + 1;
    }
    let mut outputs: Vec<TxOutputJson> = Vec::new();
    let mut k: usize = 0;
    while k < t.outputs.len()
        invariant
            k <= t.outputs@.len(),
            t@.outputs.len() == t.outputs@.len(),
            outputs@.len() == k,
            forall|q: int| 0 <= q < k ==> output_json_matches(&(#[trigger] outputs@[q]), t@.outputs[q]),
        decreases t.outputs@.len() - k,
    {
        outputs.push(output_to_json(&t.outputs[k]));
        k = k + 1;
    }
    TxJson { id: crypto::hex_encode(&t.id), inputs, outputs }
}

impl TxJson {
    /// Rebuilds the transaction a JSON payload denotes: hex-decodes the id,
    /// inputs and outputs, converts each DER signature to compact form, and
    /// checks that every public key parses and every field has its exact
    /// width. Fails with `BadSignature` when any of those fail.
    pub fn to_tx(&self) -> (r: Result<Tx, ChainError>)
        ensures
            r is Ok <==> tx_json_ok(self),
            r is Ok ==> tx_wf(r->Ok_0@),
            r is Ok ==> r->Ok_0@ == tx_json_tx(self),
            r is Err ==> r->Err_0 == ChainError::BadSignature,
    {
        let id = match crypto::hex_decode(self.id.as_str()) {
            Some(b) => b,
            None => {
                return Err(ChainError::BadSignature);
            },
        };
        if id.len() != 32 {
            return Err(ChainError::BadSignature);
        }
        let ghost idv = id@;
        let ghost spec_tx = tx_json_tx(self);
        let mut inputs: Vec<TxInput> = Vec::new();
        let mut p: usize = 0;
        while p < self.inputs.len()
            invariant
                p <= self.inputs@.len(),
                spec_tx == tx_json_tx(self),
                crate::tx::inputs_view(inputs@).len() == p,
                forall|q: int| 0 <= q < p ==> input_json_ok(&(#[trigger] self.inputs@[q])),
                forall|q: int|
                    0 <= q < p ==> #[trigger] crate::tx::inputs_view(inputs@)[q]
                        == spec_tx.inputs[q],
                forall|q: int|
                    0 <= q < crate::tx::inputs_view(inputs@).len() ==> crate::tx::tx_input_wf(
                        #[trigger] crate::tx::inputs_view(inputs@)[q],
                    ),
            decreases self.inputs@.len() - p,
        {
            let ij = &self.inputs[p];
            let prev = match crypto::hex_decode(ij.prev_tx_id.as_str()) {
                Some(b) => b,
                None => {
                    return Err(ChainError::BadSignature);
                },
            };
            if prev.len() != 32 {
                return Err(ChainError::BadSignature);
            }
            let der = match crypto::hex_decode(ij.signature.as_str()) {
                Some(b) => b,
                None => {
                    return Err(ChainError::BadSignature);
                },
            };
            let sig = match crypto::der_to_compact(&der) {
                Some(s) => s,
                None => {
                    return Err(ChainError::BadSignature);
                },
            };
            let pk = match crypto::hex_decode(ij.pub_key.as_str()) {
                Some(b) => b,
                None => {
                    return Err(ChainError::BadSignature);
                },
            };
            if pk.len() != 33 || !crypto::pubkey_check(&pk) {
                return Err(ChainError::BadSignature);
            }
            let ghost prevk = inputs@;
            let newin = TxInput { prev_tx_id: prev, out: ij.out, signature: sig, pub_key: pk };
            inputs.push(newin);
            proof {
                crate::tx::lemma_inputs_view_push(prevk, newin);
                assert(newin@ == spec_tx.inputs[p as int]);
                assert(input_json_ok(&self.inputs@[p as int]));
            }
            p = p + 1;
        }
        let mut outputs: Vec<TxOutput> = Vec::new();
        let mut k: usize = 0;
        while k < self.outputs.len()
            invariant
                k <= self.outputs@.len(),
                spec_tx == tx_json_tx(self),
                outputs@.len() == k,
                k <= 0xffff_ffff,
                forall|q: int| 0 <= q < k ==> output_json_ok(&(#[trigger] self.outputs@[q])),
                forall|q: int|
                    0 <= q < k ==> #[trigger] crate::tx::outputs_view(outputs@)[q]
                        == spec_tx.outputs[q],
                forall|q: int|
                    0 <= q < crate::tx::outputs_view(outputs@).len() ==> crate::tx::tx_output_wf(
                        #[trigger] crate::tx::outputs_view(outputs@)[q],
                    ),
            decreases self.outputs@.len() - k,
        {
            if k >= 0xffff_ffff {
                return Err(ChainError::BadSignature);
            }
            let oj = &self.outputs[k];
            let pkh = match crypto::hex_decode(oj.pub_key_hash.as_str()) {
                Some(b) => b,
                None => {
                    return Err(ChainError::BadSignature);
                },
            };
            if pkh.len() != 20 {
                return Err(ChainError::BadSignature);
            }
            let ghost prevo = outputs@;
            let newout = TxOutput { value: oj.value, pub_key_hash: pkh };
            outputs.push(newout);
            proof {
                crate::tx::lemma_outputs_view_push(prevo, newout);
                assert(newout@ == spec_tx.outputs[k as int]);
                assert(output_json_ok(&self.outputs@[k as int]));
            }
            k = k + 1;
        }
        let r = Tx { id, inputs, outputs };
        proof {
            assert(r@.id == idv);
            assert(r@.inputs =~= spec_tx.inputs);
            assert(r@.outputs =~= spec_tx.outputs);
            assert(r@ == spec_tx);
            assert(tx_json_ok(self));
        }
        Ok(r)
    }
}

/// Renders a UTXO set with hex fields, entry by entry.
pub fn convert_utxoset_to_json(utxoset: &UtxoSet) -> (r: Vec<UtxoJsonEntry>)
    ensures
        r@.len() == utxoset@.len(),
        forall|i: int|
            0 <= i < r@.len() ==> (#[trigger] r@[i]).tx_id@ == crypto::hex_of(
                utxoset@[i].tx_id,
            ) && r@[i].out == utxoset@[i].out && output_json_matches(
                &r@[i].output,
                utxoset@[i].output,
            ),
{
    let mut out: Vec<UtxoJsonEntry> = Vec::new();
    let mut i: usize = 0;
    while i < utxoset.len()
        invariant
            i <= utxoset@.len(),
            out@.len() == i,
            forall|j: int|
                0 <= j < i ==> (#[trigger] out@[j]).tx_id@ == crypto::hex_of(utxoset@[j].tx_id)
                    && out@[j].out == utxoset@[j].out && output_json_matches(
                    &out@[j].output,
                    utxoset@[j].output,
                ),
        decreases utxoset@.len() - i,
    {
        let e = utxoset.entry_at(i);
        out.push(UtxoJsonEntry {
            tx_id: crypto::hex_encode(&e.tx_id),
            out: e.out,
            output: output_to_json(&e.output),
        });
        i = i + 1;
    }
    out
}

/// Rebuilds a UTXO set from its hex form; fails with `StoreError` when a
/// field does not decode to its exact width or two entries share a key.
pub fn convert_json_to_utxoset(json: &Vec<UtxoJsonEntry>) -> (r: Result<UtxoSet, ChainError>)
    ensures
        r is Ok <==> forall|i: int| 0 <= i < json@.len() ==> utxo_json_ok(&(#[trigger] json@[i])),
        r is Ok ==> r->Ok_0.wf(),
        r is Ok ==> forall|i: int|
            0 <= i < json@.len() ==> r->Ok_0.umap().contains_key(
                (crypto::hex_decode_of((#[trigger] json@[i]).tx_id@), json@[i].out),
            ),
        r is Err ==> r->Err_0 == ChainError::StoreError,
{
    let mut set = UtxoSet::new();
    let mut i: usize = 0;
    while i < json.len()
        invariant
            i <= json@.len(),
            set.wf(),
            forall|q: int| 0 <= q < i ==> utxo_json_ok(&(#[trigger] json@[q])),
            forall|q: int|
                0 <= q < i ==> set.umap().contains_key(
                    (crypto::hex_decode_of((#[trigger] json@[q]).tx_id@), json@[q].out),
                ),
        decreases json@.len() - i,
    {
        let e = &json[i];
        let tx_id = match crypto::hex_decode(e.tx_id.as_str()) {
            Some(b) => b,
            None => {
                return Err(ChainError::StoreError);
            },
        };
        if tx_id.len() != 32 {
            return Err(ChainError::StoreError);
        }
        let pkh = match crypto::hex_decode(e.output.pub_key_hash.as_str()) {
            Some(b) => b,
            None => {
                return Err(ChainError::StoreError);
            },
        };
        if pkh.len() != 20 {
            return Err(ChainError::StoreError);
        }
        let ghost pre = set.umap();
        proof {
            assert(utxo_json_ok(&json@[i as int]));
        }
        set.put_utxo(&tx_id, e.out, TxOutput { value: e.output.value, pub_key_hash: pkh });
        proof {
            assert forall|q: int| 0 <= q < i + 1 implies set.umap().contains_key(
                (crypto::hex_decode_of((#[trigger] json@[q]).tx_id@), json@[q].out),
            ) by {
                if q < i {
                    assert(pre.contains_key(
                        (crypto::hex_decode_of(json@[q].tx_id@), json@[q].out),
                    ));
                } else {
                    assert(tx_id@ == crypto::hex_decode_of(json@[q].tx_id@));
                }
            }
        }
        i = i + 1;
    }
    Ok(set)
}

impl NodeState {
    /// The chain from tip to genesis, in the hex form the chain endpoint
    /// serves; transaction bodies are included on request.
    pub fn get_blockchain_json(&self, include_txs: bool) -> (r: Result<Vec<BlockJson>, ChainError>)
        requires
            self.wf(),
            node_chain_wf(self),
        ensures
            r is Ok <==> self@.last_hash is Some,
            r is Err ==> r->Err_0 == ChainError::StoreError,
            r is Ok ==> {
                let bm = self.bmap();
                let tip = self@.last_hash.unwrap();
                let th = bm[tip].height as nat;
                &&& r->Ok_0@.len() == th + 1
                &&& forall|j: int|
                    0 <= j < r->Ok_0@.len() ==> {
                        let b = chain_at(bm, tip, th, (th - j) as nat);
                        &&& (#[trigger] r->Ok_0@[j]).height == b.height
                        &&& r->Ok_0@[j].hash@ == crypto::hex_of(b.hash)
                        &&& r->Ok_0@[j].prev_hash@ == crypto::hex_of(b.prev_hash)
                        &&& r->Ok_0@[j].timestamp == b.timestamp
                        &&& r->Ok_0@[j].nonce == b.nonce
                        &&& (r->Ok_0@[j].txs is Some <==> include_txs)
                        &&& (include_txs ==> r->Ok_0@[j].txs.unwrap()@.len() == b.txs.len()
                            && (forall|t: int|
                            0 <= t < b.txs.len() ==> tx_json_matches(
                                &(#[trigger] r->Ok_0@[j].txs.unwrap()@[t]),
                                b.txs[t],
                            )))
                    }
            },
    {
        let blocks = match self.get_blocks_since_height(0) {
            Ok(b) => b,
            Err(e) => {
                return Err(e);
            },
        };
        let ghost bm = self.bmap();
        let ghost tip = self@.last_hash.unwrap();
        let ghost th = bm[tip].height as nat;

        let mut out: Vec<BlockJson> = Vec::new();
        let mut j: usize = 0;
        while j < blocks.len()
            invariant
                j <= blocks@.len(),
                out@.len() == j,
                forall|q: int|
                    0 <= q < blocks@.len() ==> (#[trigger] blocks@[q])@ == chain_at(
                        bm,
                        tip,
                        th,
                        (th - q) as nat,
                    ),
                forall|q: int|
                    0 <= q < j ==> {
                        let b = chain_at(bm, tip, th, (th - q) as nat);
                        &&& (#[trigger] out@[q]).height == b.height
                        &&& out@[q].hash@ == crypto::hex_of(b.hash)
                        &&& out@[q].prev_hash@ == crypto::hex_of(b.prev_hash)
                        &&& out@[q].timestamp == b.timestamp
                        &&& out@[q].nonce == b.nonce
                        &&& (out@[q].txs is Some <==> include_txs)
                        &&& (include_txs ==> out@[q].txs.unwrap()@.len() == b.txs.len()
                            && (forall|t: int|
                            0 <= t < b.txs.len() ==> tx_json_matches(
                                &(#[trigger] out@[q].txs.unwrap()@[t]),
                                b.txs[t],
                            )))
                    },
            decreases blocks@.len() - j,
        {
            let b = &blocks[j];
            let txs: Option<Vec<TxJson>> = if include_txs {
                let mut tj: Vec<TxJson> = Vec::new();
                let mut t: usize = 0;
                while t < b.txs.len()
                    invariant
                        t <= b.txs@.len(),
                        b@.txs.len() == b.txs@.len(),
                        tj@.len() == t,
                        forall|q: int|
                            0 <= q < t ==> tx_json_matches(&(#[trigger] tj@[q]), b@.txs[q]),
                    decreases b.txs@.len() - t,
                {
                    tj.push(tx_to_json(&b.txs[t]));
                    proof {
                        assert(b.txs@[t as int]@ == b@.txs[t as int]);
                    }
                    t = t + 1;
                }
                Some(tj)
            } else {
                None
            };
            out.push(BlockJson {
                height: b.height,
                hash: crypto::hex_encode(&b.hash),
                prev_hash: crypto::hex_encode(&b.prev_hash),
                timestamp: b.timestamp,
                nonce: b.nonce,
                txs,
            });
            j = j + 1;
        }
        Ok(out)
    }

    /// The balance of an address: rebuild the UTXO set from the chain, then
    /// sum every unspent output locked to the address's key hash. Fails with
    /// `InvalidAddress` exactly when the address string is malformed.
    pub fn handle_get_balance(&mut self, addr: &str) -> (r: Result<u64, ChainError>)
        requires
            old(self).wf(),
            node_chain_wf(&*old(self)),
        ensures
            final(self).wf(),
            node_chain_wf(&*final(self)),
            r is Ok <==> crate::address::address_str_ok(addr@) && old(self)@.last_hash is Some
                && outputs_locked_by(
                final(self)@.utxos,
                crate::crypto::base58_decode_of(addr@).unwrap().subrange(1, 21),
            ).len() < 0x1_0000_0000,
            r is Ok ==> r->Ok_0 == sum_values(
                outputs_locked_by(
                    final(self)@.utxos,
                    crate::crypto::base58_decode_of(addr@).unwrap().subrange(1, 21),
                ),
            ),
    {
        let wallet_addr = match Address::new_from_str(addr) {
            Ok(a) => a,
            Err(e) => {
                return Err(e);
            },
        };
        match self.reindex_utxos() {
            Ok(_) => {},
            Err(e) => {
                return Err(e);
            },
        }
        proof {
            let d = crate::crypto::base58_decode_of(addr@).unwrap();
            assert(crate::address::address_bytes(wallet_addr@) == d);
            assert(wallet_addr@.pub_key_hash =~= d.subrange(1, 21)) by {
                assert(crate::address::address_wf(wallet_addr@));
                assert forall|m: int| 0 <= m < 20 implies wallet_addr@.pub_key_hash[m]
                    == d.subrange(1, 21)[m] by {
                    assert(d[m + 1] == wallet_addr@.pub_key_hash[m]);
                }
            }
        }
        let utxos = self.utxos.find_utxos_for_addr(wallet_addr.pub_key_hash());
        if utxos.len() as u64 >= 0x1_0000_0000u64 {
            return Err(ChainError::StoreError);
        }
        let total = sum_output_values(&utxos);
        Ok(total)
    }

    /// The balance endpoint: the same computation the CLI balance uses.
    pub fn handle_get_wallet_balance(&mut self, addr: &str) -> (r: Result<u64, ChainError>)
        requires
            old(self).wf(),
            node_chain_wf(&*old(self)),
        ensures
            final(self).wf(),
            node_chain_wf(&*final(self)),
            r is Ok <==> crate::address::address_str_ok(addr@) && old(self)@.last_hash is Some
                && outputs_locked_by(
                final(self)@.utxos,
                crate::crypto::base58_decode_of(addr@).unwrap().subrange(1, 21),
            ).len() < 0x1_0000_0000,
            r is Ok ==> r->Ok_0 == sum_values(
                outputs_locked_by(
                    final(self)@.utxos,
                    crate::crypto::base58_decode_of(addr@).unwrap().subrange(1, 21),
                ),
            ),
    {
        self.handle_get_balance(addr)
    }

    /// The spendable-UTXO endpoint: the set of unspent outputs locked to the
    /// address, not referenced by pending transactions, accumulating until
    /// the requested amount is covered; `InsufficientFunds` when it cannot be.
    pub fn handle_get_spendable_utxos(&self, query: &UTXOQuery) -> (r: Result<
        Vec<UtxoJsonEntry>,
        ChainError,
    >)
        requires
            self.wf(),
        ensures
            r is Ok <==> crate::address::address_str_ok(query.address@) && self@.utxos.len()
                < 0xffff_ffff && crate::utxo::spendable_total(
                self@.utxos,
                crate::crypto::base58_decode_of(query.address@).unwrap().subrange(1, 21),
                self@.mempool,
            ) >= query.amount,
            r is Ok ==> {
                let pkh = crate::crypto::base58_decode_of(query.address@).unwrap().subrange(1, 21);
                let sel = crate::utxo::select_spendable(
                    self@.utxos,
                    pkh,
                    self@.mempool,
                    query.amount as int,
                );
                &&& r->Ok_0@.len() == sel.len()
                &&& forall|i: int|
                    0 <= i < sel.len() ==> (#[trigger] r->Ok_0@[i]).tx_id@ == crypto::hex_of(
                        sel[i].tx_id,
                    ) && r->Ok_0@[i].out == sel[i].out && output_json_matches(
                        &r->Ok_0@[i].output,
                        sel[i].output,
                    )
            },
    {
        let wallet_addr = match Address::new_from_str(query.address.as_str()) {
            Ok(a) => a,
            Err(e) => {
                return Err(e);
            },
        };
        proof {
            let d = crate::crypto::base58_decode_of(query.address@).unwrap();
            assert(crate::address::address_bytes(wallet_addr@) == d);
            assert(wallet_addr@.pub_key_hash =~= d.subrange(1, 21)) by {
                assert(crate::address::address_wf(wallet_addr@));
                assert forall|m: int| 0 <= m < 20 implies wallet_addr@.pub_key_hash[m]
                    == d.subrange(1, 21)[m] by {
                    assert(d[m + 1] == wallet_addr@.pub_key_hash[m]);
                }
            }
        }
        if self.utxos.len() >= 0xffff_ffff_usize {
            return Err(ChainError::StoreError);
        }
        let spendable = match self.utxos.find_spendable_utxos(
            wallet_addr.pub_key_hash(),
            query.amount,
            &self.mempool,
        ) {
            Ok(s) => s,
            Err(e) => {
                return Err(e);
            },
        };
        Ok(convert_utxoset_to_json(&spendable))
    }

    /// Every unspent output locked to an address, in hex form.
    pub fn handle_get_utxos_for_addr(&self, addr: &str) -> (r: Result<Vec<TxOutputJson>, ChainError>)
        requires
            self.wf(),
        ensures
            r is Ok <==> crate::address::address_str_ok(addr@),
            r is Ok ==> {
                let a = crate::crypto::base58_decode_of(addr@);
                let outs = outputs_locked_by(self@.utxos, a.unwrap().subrange(1, 21));
                &&& r->Ok_0@.len() == outs.len()
                &&& forall|j: int|
                    0 <= j < outs.len() ==> output_json_matches(&(#[trigger] r->Ok_0@[j]), outs[j])
            },
    {
        let wallet_addr = match Address::new_from_str(addr) {
            Ok(a) => a,
            Err(e) => {
                return Err(e);
            },
        };
        proof {
            let d = crate::crypto::base58_decode_of(addr@).unwrap();
            assert(crate::address::address_bytes(wallet_addr@) == d);
            assert(wallet_addr@.pub_key_hash =~= d.subrange(1, 21)) by {
                assert(crate::address::address_wf(wallet_addr@));
                assert forall|m: int| 0 <= m < 20 implies wallet_addr@.pub_key_hash[m]
                    == d.subrange(1, 21)[m] by {
                    assert(d[m + 1] == wallet_addr@.pub_key_hash[m]);
                }
            }
        }
        let utxos = self.utxos.find_utxos_for_addr(wallet_addr.pub_key_hash());
        let mut out: Vec<TxOutputJson> = Vec::new();
        let ghost outs = crate::tx::outputs_view(utxos@);
        let mut i: usize = 0;
        while i < utxos.len()
            invariant
                i <= utxos@.len(),
                outs == crate::tx::outputs_view(utxos@),
                out@.len() == i,
                forall|j: int| 0 <= j < i ==> output_json_matches(&(#[trigger] out@[j]), outs[j]),
            decreases utxos@.len() - i,
        {
            out.push(output_to_json(&utxos[i]));
            i = i + 1;
        }
        Ok(out)
    }

    /// The send endpoint's computation: rebuild the transaction from its JSON
    /// form, rebuild the UTXO set, verify the transaction, admit it to the
    /// mempool, and hand back its id for the inventory broadcast.
    pub fn handle_send_tx(&mut self, payload: &TxJson) -> (r: Result<Vec<u8>, ChainError>)
        requires
            old(self).wf(),
            node_chain_wf(&*old(self)),
        ensures
            final(self).wf(),
            node_chain_wf(&*final(self)),
            r is Ok <==> tx_json_ok(payload) && old(self)@.last_hash is Some
                && crate::tx::tx_valid(
                tx_json_tx(payload),
                crate::utxo::entries_map(final(self)@.utxos),
            ) && (forall|i: int|
                0 <= i < old(self)@.mempool.len() ==> crate::mempool::no_shared_input(
                    tx_json_tx(payload),
                    #[trigger] old(self)@.mempool[i],
                )),
            r is Ok ==> {
                &&& r->Ok_0@ == crypto::hex_decode_of(payload.id@)
                &&& final(self)@.mempool.len() > 0
                &&& final(self)@.mempool.last() == tx_json_tx(payload)
            },
    {
        let tx = match payload.to_tx() {
            Ok(t) => t,
            Err(e) => {
                return Err(e);
            },
        };
        match self.reindex_utxos() {
            Ok(_) => {},
            Err(e) => {
                return Err(e);
            },
        }
        match self.handle_inventory_res_tx(&tx) {
            Ok(_) => {},
            Err(e) => {
                return Err(e);
            },
        }
        Ok(clone_bytes(&tx.id))
    }

    /// The create-blockchain handler's computation: use the given address or
    /// create a fresh wallet to receive the reward, then mine the genesis
    /// block. Fails with `StoreError` when a chain already exists.
    pub fn handle_create_blockchain(
        &mut self,
        wallets: &mut WalletStore,
        req_addr: Option<&String>,
        timestamp: u64,
    ) -> (r: Result<Address, ChainError>)
        requires
            old(self).wf(),
            crate::wallet::wallet_store_wf(old(wallets)@),
        ensures
            final(self).wf(),
            crate::wallet::wallet_store_wf(final(wallets)@),
            old(self)@.last_hash is Some ==> r is Err && r->Err_0 == ChainError::StoreError,
            !(old(self)@.last_hash is Some) && req_addr is Some
                && !crate::address::address_str_ok(req_addr.unwrap()@) ==> r is Err
                && r->Err_0 == ChainError::InvalidAddress,
            r is Ok ==> {
                &&& node_chain_wf(&*final(self))
                &&& final(self)@.last_hash is Some
                &&& final(self).bmap().contains_key(final(self)@.last_hash.unwrap())
                &&& {
                    let g = final(self).bmap()[final(self)@.last_hash.unwrap()];
                    &&& g.height == 0
                    &&& g.txs.len() == 1
                    &&& g.txs[0].outputs[0].value == crate::tx::COINBASE_REWARD
                    &&& g.txs[0].outputs[0].pub_key_hash == r->Ok_0@.pub_key_hash
                }
            },
    {
        if self.blockchain_exists() {
            return Err(ChainError::StoreError);
        }
        let address = match req_addr {
            Some(a) => {
                match Address::new_from_str(a.as_str()) {
                    Ok(ad) => ad,
                    Err(e) => {
                        return Err(e);
                    },
                }
            },
            None => wallets.add_wallet(),
        };
        match self.create_blockchain(&address, timestamp) {
            Ok(_) => Ok(address),
            Err(e) => Err(e),
        }
    }

    /// The clear-blockchain handler: everything but the node identity goes.
    pub fn handle_clear_blockchain(&mut self)
        requires
            old(self).wf(),
        ensures
            final(self).wf(),
            node_chain_wf(&*final(self)),
            final(self)@.blocks.len() == 0,
            final(self)@.utxos.len() == 0,
            final(self)@.orphans.len() == 0,
            final(self)@.mempool.len() == 0,
            final(self)@.last_hash is None,
    {
        self.clear_blockchain();
    }
}

/// The create-wallet handler's computation: a fresh wallet, filed in the
/// store; persisting the store is the shell's job.
pub fn handle_create_wallet(wallets: &mut WalletStore) -> (r: Address)
    requires
        crate::wallet::wallet_store_wf(old(wallets)@),
    ensures
        crate::wallet::wallet_store_wf(final(wallets)@),
        final(wallets)@.len() == old(wallets)@.len() + 1,
        r@.pub_key_hash == crate::crypto::hash160_of(final(wallets)@.last().1.public_key),
{
    wallets.add_wallet()
}

/// The get-wallets handler: the stored wallets' addresses.
pub fn handle_get_wallets(wallets: &WalletStore) -> (r: Vec<String>)
    ensures
        r@.len() == wallets@.len(),
        forall|i: int| 0 <= i < r@.len() ==> (#[trigger] r@[i])@ == wallets@[i].0,
{
    wallets.get_wallets()
}

} // verus!
