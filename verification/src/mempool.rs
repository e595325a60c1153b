//! The mempool: admitted, not-yet-mined transactions, with the double-spend
//! guard on admission and block-driven eviction. The well-formedness
//! predicate `mempool_wf` carries the invariant that no two mempool
//! transactions reference the same previous output.

use vstd::prelude::*;

use crate::errors::ChainError;
use crate::tx::{Tx, TxV, is_coinbase_v, tx_wf};

verus! {

/// The views of a sequence of transactions.
pub open spec fn txs_view(s: Seq<Tx>) -> Seq<TxV> {
    Seq::new(s.len(), |i: int| s[i]@)
}

/// The views of a pushed sequence are the views plus the pushed view.
pub proof fn lemma_txs_view_push(s: Seq<Tx>, x: Tx)
    ensures
        txs_view(s.push(x)) == txs_view(s).push(x@),
{
    assert forall|m: int| 0 <= m < s.len() + 1 implies
        txs_view(s.push(x))[m] == txs_view(s).push(x@)[m] by {
        if m < s.len() {
            assert(s.push(x)[m] == s[m]);
        } else {
            assert(s.push(x)[m] == x);
        }
    }
    assert(txs_view(s.push(x)) =~= txs_view(s).push(x@));
}

/// Whether a transaction has an input referencing the output `out` of the
/// transaction with id `prev`.
pub open spec fn tx_refs(t: TxV, prev: Seq<u8>, out: u32) -> bool {
    exists|p: int|
        0 <= p < t.inputs.len() && (#[trigger] t.inputs[p]).prev_tx_id == prev
            && t.inputs[p].out == out
}

/// Two transactions share no input reference.
pub open spec fn no_shared_input(a: TxV, b: TxV) -> bool {
    forall|p: int|
        0 <= p < a.inputs.len() ==> !tx_refs(b, (#[trigger] a.inputs[p]).prev_tx_id, a.inputs[p].out)
}

/// No two distinct mempool transactions reference the same previous output.
pub open spec fn mempool_no_double_spend(s: Seq<TxV>) -> bool {
    forall|i: int, j: int|
        0 <= i < s.len() && 0 <= j < s.len() && i != j ==> no_shared_input(
            #[trigger] s[i],
            #[trigger] s[j],
        )
}

/// A well-formed mempool: well-formed transactions, distinct ids, and no
/// double spend among its transactions.
pub open spec fn mempool_wf(s: Seq<TxV>) -> bool {
    &&& forall|i: int| 0 <= i < s.len() ==> tx_wf(#[trigger] s[i])
    &&& forall|i: int, j: int|
        0 <= i < s.len() && 0 <= j < s.len() && i != j ==> (#[trigger] s[i]).id != (
        #[trigger] s[j]).id
    &&& mempool_no_double_spend(s)
}

/// Whether some listed id equals the transaction's id.
pub open spec fn listed_id(ids: Seq<Vec<u8>>, t: TxV) -> bool {
    exists|k: int| 0 <= k < ids.len() && (#[trigger] ids[k])@ == t.id
}

/// Whether a source position appears in the kept-position sequence.
pub open spec fn surviving(src: Seq<int>, m: int) -> bool {
    exists|j: int| 0 <= j < src.len() && #[trigger] src[j] == m
}

/// The pending-transaction set.
pub struct Mempool {
    txs: Vec<Tx>,
}

impl View for Mempool {
    type V = Seq<TxV>;

    closed spec fn view(&self) -> Seq<TxV> {
        txs_view(self.txs@)
    }
}

impl Mempool {
    /// An empty mempool.
    pub fn new() -> (r: Mempool)
        ensures
            r@.len() == 0,
            mempool_wf(r@),
    {
        Mempool { txs: Vec::new() }
    }

    /// How many transactions are pending.
    pub fn len(&self) -> (r: usize)
        ensures
            r == self@.len(),
    {
        self.txs.len()
    }

    /// The transaction at a position, in insertion order.
    pub fn tx_at(&self, i: usize) -> (r: &Tx)
        requires
            i < self@.len(),
        ensures
            r@ == self@[i as int],
    {
        &self.txs[i]
    }

    /// Whether some pending transaction spends the output `out_idx` of the
    /// transaction `tx_id`.
    pub fn mempool_contains_txo(&self, tx_id: &Vec<u8>, out_idx: u32) -> (r: bool)
        ensures
            r == exists|i: int|
                0 <= i < self@.len() && tx_refs(#[trigger] self@[i], tx_id@, out_idx),
    {
        let mut i: usize = 0;
        while i < self.txs.len()
            invariant
                i <= self.txs@.len(),
                self@ == txs_view(self.txs@),
                self@.len() == self.txs@.len(),
                forall|j: int| 0 <= j < i ==> !tx_refs(#[trigger] self@[j], tx_id@, out_idx),
            decreases self.txs@.len() - i,
        {
            let t = &self.txs[i];
            let mut p: usize = 0;
            while p < t.inputs.len()
                invariant
                    p <= t.inputs@.len(),
                    i < self@.len(),
                    t@ == self@[i as int],
                    t@.inputs.len() == t.inputs@.len(),
                    forall|q: int|
                        0 <= q < p ==> !((#[trigger] t@.inputs[q]).prev_tx_id == tx_id@
                            && t@.inputs[q].out == out_idx),
                decreases t.inputs@.len() - p,
            {
                let inp = &t.inputs[p];
                if inp.out == out_idx && crate::bytes::bytes_eq(&inp.prev_tx_id, tx_id) {
                    proof {
                        assert(t@.inputs[p as int].prev_tx_id == tx_id@);
                        assert(tx_refs(self@[i as int], tx_id@, out_idx));
                    }
                    return true;
                }
                p = p + 1;
            }
            proof {
                assert(!tx_refs(self@[i as int], tx_id@, out_idx));
            }
            i = i + 1;
        }
        false
    }

    /// Whether a transaction conflicts with the mempool: some input of it is
    /// already referenced by a pending transaction.
    pub fn conflicts_with(&self, tx: &Tx) -> (r: bool)
        ensures
            r == !(forall|i: int| 0 <= i < self@.len() ==> no_shared_input(tx@, #[trigger] self@[i])),
    {
        let mut p: usize = 0;
        while p < tx.inputs.len()
            invariant
                p <= tx.inputs@.len(),
                tx@.inputs.len() == tx.inputs@.len(),
                forall|q: int, i: int|
                    0 <= q < p && 0 <= i < self@.len() ==> !tx_refs(
                        #[trigger] self@[i],
                        (#[trigger] tx@.inputs[q]).prev_tx_id,
                        tx@.inputs[q].out,
                    ),
            decreases tx.inputs@.len() - p,
        {
            let inp = &tx.inputs[p];
            if self.mempool_contains_txo(&inp.prev_tx_id, inp.out) {
                proof {
                    let i = choose|i: int|
                        0 <= i < self@.len() && tx_refs(#[trigger] self@[i], inp.prev_tx_id@, inp.out);
                    assert(tx@.inputs[p as int].prev_tx_id == inp.prev_tx_id@);
                    assert(!no_shared_input(tx@, self@[i]));
                }
                return true;
            }
            p = p + 1;
        }
        proof {
            assert forall|i: int| 0 <= i < self@.len() implies no_shared_input(
                tx@,
                #[trigger] self@[i],
            ) by {
                assert forall|q: int| 0 <= q < tx@.inputs.len() implies !tx_refs(
                    self@[i],
                    (#[trigger] tx@.inputs[q]).prev_tx_id,
                    tx@.inputs[q].out,
                ) by {}
            }
        }
        false
    }

    /// Looks a pending transaction up by id.
    pub fn get_tx_from_mempool(&self, tx_id: &Vec<u8>) -> (r: Option<&Tx>)
        ensures
            r is Some <==> exists|i: int| 0 <= i < self@.len() && (#[trigger] self@[i]).id == tx_id@,
            r is Some ==> exists|i: int|
                0 <= i < self@.len() && (#[trigger] self@[i]).id == tx_id@ && r.unwrap()@ == self@[i],
    {
        let mut i: usize = 0;
        while i < self.txs.len()
            invariant
                i <= self.txs@.len(),
                self@.len() == self.txs@.len(),
                forall|j: int| 0 <= j < i ==> (#[trigger] self@[j]).id != tx_id@,
            decreases self.txs@.len() - i,
        {
            if crate::bytes::bytes_eq(&self.txs[i].id, tx_id) {
                proof {
                    assert(self@[i as int].id == tx_id@);
                }
                return Some(&self.txs[i]);
            }
            i = i + 1;
        }
        None
    }

    /// Whether the mempool holds a transaction with this id.
    pub fn mempool_contains_tx(&self, tx_id: &Vec<u8>) -> (r: bool)
        ensures
            r == exists|i: int| 0 <= i < self@.len() && (#[trigger] self@[i]).id == tx_id@,
    {
        match self.get_tx_from_mempool(tx_id) {
            Some(_) => true,
            None => false,
        }
    }

    /// Admits a transaction. Fails with `DoubleSpend` exactly when one of its
    /// inputs is already referenced by a pending transaction; otherwise the
    /// transaction is appended (replacing a pending transaction of the same
    /// id, so ids stay unique).
    pub fn add_tx_to_mempool(&mut self, tx: &Tx) -> (r: Result<(), ChainError>)
        requires
            mempool_wf(old(self)@),
            tx_wf(tx@),
        ensures
            mempool_wf(final(self)@),
            r is Err <==> !(forall|i: int|
                0 <= i < old(self)@.len() ==> no_shared_input(tx@, #[trigger] old(self)@[i])),
            r is Err ==> final(self)@ == old(self)@ && r.unwrap_err() == ChainError::DoubleSpend,
            r is Ok ==> final(self)@.len() > 0 && final(self)@.last() == tx@,
            r is Ok ==> forall|j: int|
                0 <= j < final(self)@.len() - 1 ==> old(self)@.contains(#[trigger] final(self)@[j])
                    && final(self)@[j].id != tx@.id,
            r is Ok ==> forall|i: int|
                0 <= i < old(self)@.len() && (#[trigger] old(self)@[i]).id != tx@.id
                    ==> final(self)@.contains(old(self)@[i]),
    {
        if self.conflicts_with(tx) {
            return Err(ChainError::DoubleSpend);
        }
        // Drop any pending transaction with the same id, then append.
        let mut kept: Vec<Tx> = Vec::new();
        let ghost mut src: Seq<int> = Seq::empty();
        let mut i: usize = 0;
        while i < self.txs.len()
            invariant
                mempool_wf(old(self)@),
                i <= self.txs@.len(),
                self@ == old(self)@,
                self@.len() == self.txs@.len(),
                src.len() == txs_view(kept@).len(),
                forall|j: int| 0 <= j < src.len() ==> 0 <= #[trigger] src[j] < i,
                forall|j: int, m: int| 0 <= j < m < src.len() ==> src[j] < src[m],
                forall|j: int|
                    0 <= j < src.len() ==> #[trigger] txs_view(kept@)[j] == self@[src[j]],
                forall|j: int| 0 <= j < src.len() ==> self@[#[trigger] src[j]].id != tx@.id,
                forall|m: int|
                    0 <= m < i && (#[trigger] self@[m]).id != tx@.id ==> surviving(src, m),
            decreases self.txs@.len() - i,
        {
            let ghost src_entry = src;
            let keep = !crate::bytes::bytes_eq(&self.txs[i].id, &tx.id);
            if keep {
                let ghost prev = kept@;
                let dup = self.txs[i].duplicate();
                kept.push(dup);
                proof {
                    lemma_txs_view_push(prev, dup);
                    src = src.push(i as int);
                }
            }
            proof {
                let ii = i as int;
                assert forall|m: int|
                    0 <= m < ii + 1 && (#[trigger] self@[m]).id != tx@.id implies surviving(
                    src,
                    m,
                ) by {
                    if m == ii {
                        assert(keep);
                        assert(src[src.len() - 1] == ii);
                        assert(surviving(src, ii));
                    } else {
                        if surviving(src_entry, m) {
                            let j0 = choose|j: int|
                                0 <= j < src_entry.len() && #[trigger] src_entry[j] == m;
                            assert(src[j0] == m);
                            assert(surviving(src, m));
                        }
                    }
                }
            }
            i = i + 1;
        }
        let ghost prevk = kept@;
        let ghost srck = src;
        let dup_tx = tx.duplicate();
        kept.push(dup_tx);
        self.txs = kept;
        proof {
            lemma_txs_view_push(prevk, dup_tx);
            let s = self@;
            let n = s.len() as int;
            assert(s[n - 1] == tx@);
            assert forall|a: int, b: int|
                0 <= a < n && 0 <= b < n && a != b implies (#[trigger] s[a]).id != (
            #[trigger] s[b]).id by {
                if a < n - 1 && b < n - 1 {
                    assert(s[a] == old(self)@[srck[a]]);
                    assert(s[b] == old(self)@[srck[b]]);
                    assert(srck[a] != srck[b]) by {
                        if a < b {
                            assert(srck[a] < srck[b]);
                        } else {
                            assert(srck[b] < srck[a]);
                        }
                    }
                } else if a == n - 1 {
                    assert(s[b] == old(self)@[srck[b]]);
                    assert(old(self)@[srck[b]].id != tx@.id);
                } else {
                    assert(s[a] == old(self)@[srck[a]]);
                    assert(old(self)@[srck[a]].id != tx@.id);
                }
            }
            assert forall|a: int, b: int|
                0 <= a < n && 0 <= b < n && a != b implies no_shared_input(
                #[trigger] s[a],
                #[trigger] s[b],
            ) by {
                if a < n - 1 && b < n - 1 {
                    assert(s[a] == old(self)@[srck[a]]);
                    assert(s[b] == old(self)@[srck[b]]);
                    assert(srck[a] != srck[b]) by {
                        if a < b {
                            assert(srck[a] < srck[b]);
                        } else {
                            assert(srck[b] < srck[a]);
                        }
                    }
                    assert(no_shared_input(old(self)@[srck[a]], old(self)@[srck[b]]));
                } else if a == n - 1 {
                    assert(s[b] == old(self)@[srck[b]]);
                    assert(no_shared_input(tx@, old(self)@[srck[b]]));
                } else {
                    assert(s[a] == old(self)@[srck[a]]);
                    assert(no_shared_input(tx@, old(self)@[srck[a]]));
                    lemma_no_shared_symm(tx@, old(self)@[srck[a]]);
                }
            }
            assert forall|j: int| 0 <= j < n implies tx_wf(#[trigger] s[j]) by {
                if j < n - 1 {
                    assert(s[j] == old(self)@[srck[j]]);
                    assert(tx_wf(old(self)@[srck[j]]));
                }
            }
            assert forall|i2: int|
                0 <= i2 < old(self)@.len() && (#[trigger] old(self)@[i2]).id != tx@.id implies
                s.contains(old(self)@[i2]) by {
                assert(surviving(srck, i2));
                let j0 = choose|j: int| 0 <= j < srck.len() && #[trigger] srck[j] == i2;
                assert(s[j0] == old(self)@[srck[j0]]);
                assert(s[j0] == old(self)@[i2]);
            }
            assert forall|j: int|
                0 <= j < n - 1 implies old(self)@.contains(#[trigger] s[j]) && s[j].id != tx@.id by {
                assert(s[j] == old(self)@[srck[j]]);
            }
        }
        Ok(())
    }

    /// Removes the transactions with the given ids; everything else stays, in
    /// order.
    pub fn remove_txs_from_mempool(&mut self, tx_ids: &Vec<Vec<u8>>)
        requires
            mempool_wf(old(self)@),
        ensures
            mempool_wf(final(self)@),
            forall|j: int|
                0 <= j < final(self)@.len() ==> old(self)@.contains(#[trigger] final(self)@[j]),
            forall|j: int|
                0 <= j < final(self)@.len() ==> !listed_id(tx_ids@, #[trigger] final(self)@[j]),
            forall|m: int|
                0 <= m < old(self)@.len() ==> final(self)@.contains(#[trigger] old(self)@[m])
                    || listed_id(tx_ids@, old(self)@[m]),
    {
        let mut kept: Vec<Tx> = Vec::new();
        let ghost mut src: Seq<int> = Seq::empty();
        let mut i: usize = 0;
        while i < self.txs.len()
            invariant
                mempool_wf(old(self)@),
                i <= self.txs@.len(),
                self@ == old(self)@,
                self@.len() == self.txs@.len(),
                src.len() == txs_view(kept@).len(),
                forall|j: int| 0 <= j < src.len() ==> 0 <= #[trigger] src[j] < i,
                forall|j: int, m: int| 0 <= j < m < src.len() ==> src[j] < src[m],
                forall|j: int|
                    0 <= j < src.len() ==> #[trigger] txs_view(kept@)[j] == self@[src[j]],
                forall|j: int| 0 <= j < src.len() ==> !listed_id(tx_ids@, self@[#[trigger] src[j]]),
                forall|m: int|
                    0 <= m < i ==> surviving(src, m) || listed_id(tx_ids@, #[trigger] self@[m]),
            decreases self.txs@.len() - i,
        {
            let ghost src_entry = src;
            let mut listed = false;
            let mut k: usize = 0;
            while k < tx_ids.len()
                invariant
                    k <= tx_ids@.len(),
                    i < self.txs@.len(),
                    self@.len() == self.txs@.len(),
                    listed == exists|q: int|
                        0 <= q < k && (#[trigger] tx_ids@[q])@ == self@[i as int].id,
                decreases tx_ids@.len() - k,
            {
                if crate::bytes::bytes_eq(&self.txs[i].id, &tx_ids[k]) {
                    proof {
                        assert(tx_ids@[k as int]@ == self@[i as int].id);
                    }
                    listed = true;
                }
                k = k + 1;
            }
            proof {
                assert(listed == listed_id(tx_ids@, self@[i as int]));
            }
            if !listed {
                let ghost prev = kept@;
                let dup = self.txs[i].duplicate();
                kept.push(dup);
                proof {
                    lemma_txs_view_push(prev, dup);
                    src = src.push(i as int);
                    assert forall|j: int|
                        0 <= j < src.len() implies !listed_id(tx_ids@, self@[#[trigger] src[j]]) by {
                        if j < src.len() - 1 {
                            assert(src[j] == src_entry[j]);
                        } else {
                            assert(src[j] == i as int);
                        }
                    }
                }
            }
            proof {
                let ii = i as int;
                assert forall|m: int|
                    0 <= m < ii + 1 implies surviving(src, m) || listed_id(
                    tx_ids@,
                    #[trigger] self@[m],
                ) by {
                    if m == ii {
                        if !listed {
                            assert(src[src.len() - 1] == ii);
                            assert(surviving(src, ii));
                        }
                    } else {
                        if surviving(src_entry, m) {
                            let j0 = choose|j: int|
                                0 <= j < src_entry.len() && #[trigger] src_entry[j] == m;
                            assert(src[j0] == m);
                            assert(surviving(src, m));
                        }
                    }
                }
            }
            i = i + 1;
        }
        let ghost keptv = kept@;
        self.txs = kept;
        proof {
            let s = self@;
            let n = s.len() as int;
            assert(s == txs_view(keptv));
            assert forall|j: int| 0 <= j < n implies #[trigger] s[j] == old(self)@[src[j]] by {
                assert(txs_view(keptv)[j] == old(self)@[src[j]]);
            }
            assert forall|a: int, b: int|
                0 <= a < n && 0 <= b < n && a != b implies (#[trigger] s[a]).id != (#[trigger] s[b]).id
                    && no_shared_input(s[a], s[b]) by {
                assert(s[a] == old(self)@[src[a]]);
                assert(s[b] == old(self)@[src[b]]);
                assert(src[a] != src[b]) by {
                    if a < b {
                        assert(src[a] < src[b]);
                    } else {
                        assert(src[b] < src[a]);
                    }
                }
                assert(old(self)@[src[a]].id != old(self)@[src[b]].id);
                assert(no_shared_input(old(self)@[src[a]], old(self)@[src[b]]));
            }
            assert forall|j: int| 0 <= j < n implies tx_wf(#[trigger] s[j]) by {
                assert(s[j] == old(self)@[src[j]]);
                assert(tx_wf(old(self)@[src[j]]));
            }
            assert forall|j: int| 0 <= j < n implies old(self)@.contains(#[trigger] s[j]) by {
                assert(old(self)@[src[j]] == s[j]);
            }
            assert forall|j: int| 0 <= j < n implies !listed_id(tx_ids@, #[trigger] s[j]) by {
                assert(s[j] == old(self)@[src[j]]);
                assert(!listed_id(tx_ids@, old(self)@[src[j]]));
            }
            assert forall|m: int|
                0 <= m < old(self)@.len() implies s.contains(#[trigger] old(self)@[m])
                    || listed_id(tx_ids@, old(self)@[m]) by {
                if surviving(src, m) {
                    let j0 = choose|j: int| 0 <= j < src.len() && #[trigger] src[j] == m;
                    assert(s[j0] == old(self)@[src[j0]]);
                    assert(s[j0] == old(self)@[m]);
                }
            }
        }
    }

    /// Empties the mempool.
    pub fn delete_mempool(&mut self)
        ensures
            final(self)@.len() == 0,
            mempool_wf(final(self)@),
    {
        self.txs = Vec::new();
    }
}

/// Sharing an input is symmetric.
pub proof fn lemma_no_shared_symm(a: TxV, b: TxV)
    requires
        no_shared_input(a, b),
    ensures
        no_shared_input(b, a),
{
    assert forall|p: int|
        0 <= p < b.inputs.len() implies !tx_refs(a, (#[trigger] b.inputs[p]).prev_tx_id, b.inputs[p].out) by {
        if tx_refs(a, b.inputs[p].prev_tx_id, b.inputs[p].out) {
            let q = choose|q: int|
                0 <= q < a.inputs.len() && (#[trigger] a.inputs[q]).prev_tx_id == b.inputs[p].prev_tx_id
                    && a.inputs[q].out == b.inputs[p].out;
            assert(tx_refs(b, a.inputs[q].prev_tx_id, a.inputs[q].out));
        }
    }
}

} // verus!
