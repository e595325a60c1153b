//! The UTXO set: unspent transaction outputs keyed by (producing transaction
//! id, output index). The executable set is a vector of entries with unique
//! keys; its ghost meaning is the map `umap` from keys to outputs, and every
//! operation's contract speaks over that map.

use vstd::prelude::*;

use crate::bytes::clone_bytes;
use crate::errors::ChainError;
use crate::mempool::Mempool;
use crate::tx::{TxOutput, TxOutputV, TxV, outputs_view};

verus! {

/// The ghost image of one entry.
pub ghost struct UtxoEntryV {
    pub tx_id: Seq<u8>,
    pub out: u32,
    pub output: TxOutputV,
}

/// One unspent output: its key and the output itself.
#[derive(Debug)]
pub struct UtxoEntry {
    pub tx_id: Vec<u8>,
    pub out: u32,
    pub output: TxOutput,
}

impl View for UtxoEntry {
    type V = UtxoEntryV;

    open spec fn view(&self) -> UtxoEntryV {
        UtxoEntryV { tx_id: self.tx_id@, out: self.out, output: self.output@ }
    }
}

/// The key of an entry.
pub open spec fn entry_key(e: UtxoEntryV) -> (Seq<u8>, u32) {
    (e.tx_id, e.out)
}

/// The ghost map a sequence of entries denotes: later entries win, though
/// well-formed sets never carry a key twice.
pub open spec fn entries_map(s: Seq<UtxoEntryV>) -> Map<(Seq<u8>, u32), TxOutputV>
    decreases s.len(),
{
    if s.len() == 0 {
        Map::empty()
    } else {
        entries_map(s.drop_last()).insert(entry_key(s.last()), s.last().output)
    }
}

/// The views of a sequence of entries.
pub open spec fn entries_view(s: Seq<UtxoEntry>) -> Seq<UtxoEntryV> {
    Seq::new(s.len(), |i: int| s[i]@)
}

/// Unique keys, and every entry well-formed.
pub open spec fn entries_wf(s: Seq<UtxoEntryV>) -> bool {
    &&& forall|i: int, j: int|
        0 <= i < s.len() && 0 <= j < s.len() && i != j ==> entry_key(#[trigger] s[i]) != entry_key(
            #[trigger] s[j],
        )
    &&& forall|i: int|
        0 <= i < s.len() ==> (#[trigger] s[i]).tx_id.len() == 32
            && crate::tx::tx_output_wf(s[i].output)
}

/// A key of the map comes from some entry.
pub proof fn lemma_map_domain(s: Seq<UtxoEntryV>, k: (Seq<u8>, u32))
    ensures
        entries_map(s).contains_key(k) <==> exists|i: int|
            0 <= i < s.len() && entry_key(#[trigger] s[i]) == k,
    decreases s.len(),
{
    if s.len() > 0 {
        lemma_map_domain(s.drop_last(), k);
        if entries_map(s).contains_key(k) {
            if entry_key(s.last()) == k {
                assert(entry_key(s[s.len() - 1]) == k);
            } else {
                let i = choose|i: int|
                    0 <= i < s.drop_last().len() && entry_key(#[trigger] s.drop_last()[i]) == k;
                assert(s.drop_last()[i] == s[i]);
                assert(entry_key(s[i]) == k);
            }
        }
        if exists|i: int| 0 <= i < s.len() && entry_key(#[trigger] s[i]) == k {
            let i = choose|i: int| 0 <= i < s.len() && entry_key(#[trigger] s[i]) == k;
            if i == s.len() - 1 {
                assert(entries_map(s).contains_key(k));
            } else {
                assert(s.drop_last()[i] == s[i]);
                assert(entries_map(s.drop_last()).contains_key(k));
            }
        }
    }
}

/// With unique keys, the map sends each entry's key to its output.
pub proof fn lemma_map_index(s: Seq<UtxoEntryV>, i: int)
    requires
        entries_wf(s),
        0 <= i < s.len(),
    ensures
        entries_map(s).contains_key(entry_key(s[i])),
        entries_map(s)[entry_key(s[i])] == s[i].output,
    decreases s.len(),
{
    lemma_map_domain(s, entry_key(s[i]));
    if i == s.len() - 1 {
    } else {
        assert(entry_key(s[s.len() - 1]) != entry_key(s[i]));
        assert(s.drop_last()[i] == s[i]);
        assert(entries_wf(s.drop_last())) by {
            assert forall|a: int, b: int|
                0 <= a < s.drop_last().len() && 0 <= b < s.drop_last().len() && a != b implies
                entry_key(#[trigger] s.drop_last()[a]) != entry_key(#[trigger] s.drop_last()[b]) by {
                assert(s.drop_last()[a] == s[a]);
                assert(s.drop_last()[b] == s[b]);
            }
            assert forall|a: int| 0 <= a < s.drop_last().len() implies
                (#[trigger] s.drop_last()[a]).tx_id.len() == 32
                    && crate::tx::tx_output_wf(s.drop_last()[a].output) by {
                assert(s.drop_last()[a] == s[a]);
            }
        }
        lemma_map_index(s.drop_last(), i);
    }
}

/// Updating the output at position `i` updates the map at that entry's key.
pub proof fn lemma_map_update(s: Seq<UtxoEntryV>, i: int, e: UtxoEntryV)
    requires
        entries_wf(s),
        0 <= i < s.len(),
        entry_key(e) == entry_key(s[i]),
    ensures
        entries_map(s.update(i, e)) == entries_map(s).insert(entry_key(e), e.output),
    decreases s.len(),
{
    let t = s.update(i, e);
    if i == s.len() - 1 {
        assert(t.drop_last() =~= s.drop_last());
        assert(t.last() == e);
        assert(entries_map(t)
            == entries_map(s.drop_last()).insert(entry_key(e), e.output));
        assert(entries_map(s)
            == entries_map(s.drop_last()).insert(entry_key(s[i]), s[i].output));
        assert(entries_map(s).insert(entry_key(e), e.output)
            =~= entries_map(s.drop_last()).insert(entry_key(e), e.output));
    } else {
        assert(t.drop_last() =~= s.drop_last().update(i, e));
        assert(t.last() == s.last());
        assert(entries_wf(s.drop_last())) by {
            assert forall|a: int, b: int|
                0 <= a < s.drop_last().len() && 0 <= b < s.drop_last().len() && a != b implies
                entry_key(#[trigger] s.drop_last()[a]) != entry_key(#[trigger] s.drop_last()[b]) by {
                assert(s.drop_last()[a] == s[a]);
                assert(s.drop_last()[b] == s[b]);
            }
            assert forall|a: int| 0 <= a < s.drop_last().len() implies
                (#[trigger] s.drop_last()[a]).tx_id.len() == 32
                    && crate::tx::tx_output_wf(s.drop_last()[a].output) by {
                assert(s.drop_last()[a] == s[a]);
            }
        }
        assert(s.drop_last()[i] == s[i]);
        lemma_map_update(s.drop_last(), i, e);
        assert(entry_key(s.last()) != entry_key(e)) by {
            assert(entry_key(s[s.len() - 1]) != entry_key(s[i]));
        }
        assert(entries_map(t)
            == entries_map(s.drop_last()).insert(entry_key(e), e.output).insert(
            entry_key(s.last()),
            s.last().output,
        ));
        assert(entries_map(s.drop_last()).insert(entry_key(e), e.output).insert(
            entry_key(s.last()),
            s.last().output,
        ) =~= entries_map(s).insert(entry_key(e), e.output));
    }
}

/// Removing the entry at position `i` removes exactly its key from the map.
pub proof fn lemma_map_remove(s: Seq<UtxoEntryV>, i: int)
    requires
        entries_wf(s),
        0 <= i < s.len(),
    ensures
        entries_map(s.remove(i)) == entries_map(s).remove(entry_key(s[i])),
    decreases s.len(),
{
    let t = s.remove(i);
    if i == s.len() - 1 {
        assert(t =~= s.drop_last());
        lemma_map_domain(s.drop_last(), entry_key(s[i]));
        assert forall|a: int| 0 <= a < s.drop_last().len() implies
            entry_key(#[trigger] s.drop_last()[a]) != entry_key(s[i]) by {
            assert(s.drop_last()[a] == s[a]);
        }
        assert(!entries_map(s.drop_last()).contains_key(entry_key(s[i])));
        assert(entries_map(t) =~= entries_map(s).remove(entry_key(s[i])));
    } else {
        assert(t.drop_last() =~= s.drop_last().remove(i));
        assert(t.last() == s.last());
        assert(entries_wf(s.drop_last())) by {
            assert forall|a: int, b: int|
                0 <= a < s.drop_last().len() && 0 <= b < s.drop_last().len() && a != b implies
                entry_key(#[trigger] s.drop_last()[a]) != entry_key(#[trigger] s.drop_last()[b]) by {
                assert(s.drop_last()[a] == s[a]);
                assert(s.drop_last()[b] == s[b]);
            }
            assert forall|a: int| 0 <= a < s.drop_last().len() implies
                (#[trigger] s.drop_last()[a]).tx_id.len() == 32
                    && crate::tx::tx_output_wf(s.drop_last()[a].output) by {
                assert(s.drop_last()[a] == s[a]);
            }
        }
        assert(s.drop_last()[i] == s[i]);
        lemma_map_remove(s.drop_last(), i);
        assert(entry_key(s.last()) != entry_key(s[i])) by {
            assert(entry_key(s[s.len() - 1]) != entry_key(s[i]));
        }
        assert(entries_map(t)
            == entries_map(s.drop_last()).remove(entry_key(s[i])).insert(
            entry_key(s.last()),
            s.last().output,
        ));
        assert(entries_map(s.drop_last()).remove(entry_key(s[i])).insert(
            entry_key(s.last()),
            s.last().output,
        ) =~= entries_map(s).remove(entry_key(s[i])));
    }
}

/// The views of a pushed sequence are the views plus the pushed view.
pub proof fn lemma_entries_view_push(s: Seq<UtxoEntry>, x: UtxoEntry)
    ensures
        entries_view(s.push(x)) == entries_view(s).push(x@),
{
    assert forall|m: int| 0 <= m < s.len() + 1 implies
        entries_view(s.push(x))[m] == entries_view(s).push(x@)[m] by {
        if m < s.len() {
            assert(s.push(x)[m] == s[m]);
        } else {
            assert(s.push(x)[m] == x);
        }
    }
    assert(entries_view(s.push(x)) =~= entries_view(s).push(x@));
}

/// The UTXO set.
#[derive(Debug)]
pub struct UtxoSet {
    entries: Vec<UtxoEntry>,
}

impl View for UtxoSet {
    type V = Seq<UtxoEntryV>;

    closed spec fn view(&self) -> Seq<UtxoEntryV> {
        entries_view(self.entries@)
    }
}

impl UtxoSet {
    /// The ghost map the set denotes.
    pub open spec fn umap(&self) -> Map<(Seq<u8>, u32), TxOutputV> {
        entries_map(self@)
    }

    /// Well-formedness: unique keys, well-formed entries.
    pub open spec fn wf(&self) -> bool {
        entries_wf(self@)
    }

    /// An empty set.
    pub fn new() -> (r: UtxoSet)
        ensures
            r@.len() == 0,
            r.wf(),
            r.umap() == Map::<(Seq<u8>, u32), TxOutputV>::empty(),
    {
        UtxoSet { entries: Vec::new() }
    }

    /// How many outputs the set holds.
    pub fn len(&self) -> (r: usize)
        ensures
            r == self@.len(),
    {
        self.entries.len()
    }

    /// The entry at a position.
    pub fn entry_at(&self, i: usize) -> (r: &UtxoEntry)
        requires
            i < self@.len(),
        ensures
            r@ == self@[i as int],
    {
        &self.entries[i]
    }

    /// The position of the key, if it is in the set.
    fn find(&self, tx_id: &Vec<u8>, out_idx: u32) -> (r: Option<usize>)
        ensures
            r is Some ==> 0 <= r.unwrap() < self@.len()
                && entry_key(self@[r.unwrap() as int]) == (tx_id@, out_idx),
            r is None ==> forall|i: int|
                0 <= i < self@.len() ==> entry_key(#[trigger] self@[i]) != (tx_id@, out_idx),
    {
        let mut i: usize = 0;
        while i < self.entries.len()
            invariant
                i <= self.entries@.len(),
                self@.len() == self.entries@.len(),
                forall|j: int| 0 <= j < i ==> entry_key(#[trigger] self@[j]) != (tx_id@, out_idx),
            decreases self.entries@.len() - i,
        {
            let e = &self.entries[i];
            if e.out == out_idx && crate::bytes::bytes_eq(&e.tx_id, tx_id) {
                proof {
                    assert(entry_key(self@[i as int]) == (tx_id@, out_idx));
                }
                return Some(i);
            }
            proof {
                if entry_key(self@[i as int]) == (tx_id@, out_idx) {
                    assert(self@[i as int].tx_id == tx_id@);
                    assert(self@[i as int].out == out_idx);
                    assert(false);
                }
            }
            i = i + 1;
        }
        None
    }

    /// Looks the output at `(tx_id, out_idx)` up.
    pub fn get_utxo(&self, tx_id: &Vec<u8>, out_idx: u32) -> (r: Option<&TxOutput>)
        requires
            self.wf(),
        ensures
            r is Some <==> self.umap().contains_key((tx_id@, out_idx)),
            r is Some ==> r.unwrap()@ == self.umap()[(tx_id@, out_idx)],
    {
        proof {
            lemma_map_domain(self@, (tx_id@, out_idx));
        }
        match self.find(tx_id, out_idx) {
            Some(i) => {
                proof {
                    lemma_map_index(self@, i as int);
                }
                Some(&self.entries[i].output)
            },
            None => None,
        }
    }

    /// Whether any output of the transaction `tx_id` is unspent.
    pub fn utxo_set_contains_tx(&self, tx_id: &Vec<u8>) -> (r: bool)
        ensures
            r == exists|o: u32| #[trigger] self.umap().contains_key((tx_id@, o)),
    {
        let mut i: usize = 0;
        while i < self.entries.len()
            invariant
                i <= self.entries@.len(),
                self@.len() == self.entries@.len(),
                forall|j: int| 0 <= j < i ==> (#[trigger] self@[j]).tx_id != tx_id@,
            decreases self.entries@.len() - i,
        {
            let e = &self.entries[i];
            if crate::bytes::bytes_eq(&e.tx_id, tx_id) {
                proof {
                    lemma_map_domain(self@, (tx_id@, self@[i as int].out));
                    assert(entry_key(self@[i as int]) == (tx_id@, self@[i as int].out));
                    assert(self.umap().contains_key((tx_id@, self@[i as int].out)));
                }
                return true;
            }
            i = i + 1;
        }
        proof {
            if exists|o: u32| #[trigger] self.umap().contains_key((tx_id@, o)) {
                let o = choose|o: u32| #[trigger] self.umap().contains_key((tx_id@, o));
                lemma_map_domain(self@, (tx_id@, o));
                let j = choose|j: int| 0 <= j < self@.len() && entry_key(#[trigger] self@[j]) == (tx_id@, o);
                assert(self@[j].tx_id == tx_id@);
                assert(false);
            }
        }
        false
    }

    /// Inserts or replaces the output at `(tx_id, out_idx)`.
    pub fn put_utxo(&mut self, tx_id: &Vec<u8>, out_idx: u32, tx_out: TxOutput)
        requires
            old(self).wf(),
            tx_id@.len() == 32,
            crate::tx::tx_output_wf(tx_out@),
        ensures
            final(self).wf(),
            final(self).umap() == old(self).umap().insert((tx_id@, out_idx), tx_out@),
    {
        let ghost s0 = self@;
        match self.find(tx_id, out_idx) {
            Some(i) => {
                let e = UtxoEntry { tx_id: clone_bytes(tx_id), out: out_idx, output: tx_out };
                self.entries.set(i, e);
                proof {
                    assert(self@ =~= s0.update(i as int, UtxoEntryV {
                        tx_id: tx_id@,
                        out: out_idx,
                        output: tx_out@,
                    }));
                    lemma_map_update(s0, i as int, UtxoEntryV {
                        tx_id: tx_id@,
                        out: out_idx,
                        output: tx_out@,
                    });
                    assert forall|a: int, b: int|
                        0 <= a < self@.len() && 0 <= b < self@.len() && a != b implies entry_key(
                        #[trigger] self@[a],
                    ) != entry_key(#[trigger] self@[b]) by {
                        if a != i && b != i {
                            assert(self@[a] == s0[a]);
                            assert(self@[b] == s0[b]);
                        } else if a == i {
                            assert(self@[b] == s0[b]);
                            assert(entry_key(s0[b]) != entry_key(s0[i as int]));
                        } else {
                            assert(self@[a] == s0[a]);
                            assert(entry_key(s0[a]) != entry_key(s0[i as int]));
                        }
                    }
                    assert forall|a: int| 0 <= a < self@.len() implies
                        (#[trigger] self@[a]).tx_id.len() == 32
                            && crate::tx::tx_output_wf(self@[a].output) by {
                        if a != i {
                            assert(self@[a] == s0[a]);
                        }
                    }
                }
            },
            None => {
                let ghost prev = self.entries@;
                let e = UtxoEntry { tx_id: clone_bytes(tx_id), out: out_idx, output: tx_out };
                self.entries.push(e);
                proof {
                    assert(self@ =~= s0.push(UtxoEntryV {
                        tx_id: tx_id@,
                        out: out_idx,
                        output: tx_out@,
                    })) by {
                        assert forall|m: int| 0 <= m < s0.len() + 1 implies
                            self@[m] == s0.push(UtxoEntryV {
                                tx_id: tx_id@,
                                out: out_idx,
                                output: tx_out@,
                            })[m] by {
                            if m < s0.len() {
                                assert(self.entries@[m] == prev[m]);
                            } else {
                                assert(self.entries@[m] == self.entries@.last());
                            }
                        }
                    }
                    let t = self@;
                    assert(t.drop_last() =~= s0);
                    assert(entries_map(t)
                        == entries_map(s0).insert((tx_id@, out_idx), tx_out@));
                    assert forall|a: int, b: int|
                        0 <= a < t.len() && 0 <= b < t.len() && a != b implies entry_key(
                        #[trigger] t[a],
                    ) != entry_key(#[trigger] t[b]) by {
                        if a < t.len() - 1 && b < t.len() - 1 {
                            assert(t[a] == s0[a]);
                            assert(t[b] == s0[b]);
                        } else if a == t.len() - 1 {
                            assert(t[b] == s0[b]);
                            assert(entry_key(s0[b]) != (tx_id@, out_idx));
                        } else {
                            assert(t[a] == s0[a]);
                            assert(entry_key(s0[a]) != (tx_id@, out_idx));
                        }
                    }
                    assert forall|a: int| 0 <= a < t.len() implies (#[trigger] t[a]).tx_id.len()
                        == 32 && crate::tx::tx_output_wf(t[a].output) by {
                        if a < t.len() - 1 {
                            assert(t[a] == s0[a]);
                        }
                    }
                }
            },
        }
    }

    /// Deletes the output at `(tx_id, out_idx)`; deleting an absent key
    /// leaves the set as it is.
    pub fn delete_utxo(&mut self, tx_id: &Vec<u8>, out_idx: u32)
        requires
            old(self).wf(),
        ensures
            final(self).wf(),
            final(self).umap() == old(self).umap().remove((tx_id@, out_idx)),
    {
        let ghost s0 = self@;
        match self.find(tx_id, out_idx) {
            Some(i) => {
                self.entries.remove(i);
                proof {
                    assert(self@ =~= s0.remove(i as int)) by {
                        assert forall|m: int| 0 <= m < s0.len() - 1 implies
                            self@[m] == s0.remove(i as int)[m] by {
                            if m < i as int {
                                assert(self.entries@[m] == old(self).entries@[m]);
                            } else {
                                assert(self.entries@[m] == old(self).entries@[m + 1]);
                            }
                        }
                    }
                    lemma_map_remove(s0, i as int);
                    let t = self@;
                    assert forall|a: int, b: int|
                        0 <= a < t.len() && 0 <= b < t.len() && a != b implies entry_key(
                        #[trigger] t[a],
                    ) != entry_key(#[trigger] t[b]) by {
                        let a0 = if a < i as int { a } else { a + 1 };
                        let b0 = if b < i as int { b } else { b + 1 };
                        assert(t[a] == s0[a0]);
                        assert(t[b] == s0[b0]);
                        assert(entry_key(s0[a0]) != entry_key(s0[b0]));
                    }
                    assert forall|a: int| 0 <= a < t.len() implies (#[trigger] t[a]).tx_id.len()
                        == 32 && crate::tx::tx_output_wf(t[a].output) by {
                        let a0 = if a < i as int { a } else { a + 1 };
                        assert(t[a] == s0[a0]);
                    }
                }
            },
            None => {
                proof {
                    lemma_map_domain(s0, (tx_id@, out_idx));
                    assert(!old(self).umap().contains_key((tx_id@, out_idx)));
                    assert(old(self).umap().remove((tx_id@, out_idx)) =~= old(self).umap());
                }
            },
        }
    }

    /// Empties the set.
    pub fn delete_all_utxos(&mut self)
        ensures
            final(self).wf(),
            final(self)@.len() == 0,
            final(self).umap() == Map::<(Seq<u8>, u32), TxOutputV>::empty(),
    {
        self.entries = Vec::new();
    }

    /// All outputs locked to the given public-key hash, in entry order; the
    /// balance of an address is their sum.
    pub fn find_utxos_for_addr(&self, pub_key_hash: &Vec<u8>) -> (r: Vec<TxOutput>)
        ensures
            outputs_view(r@) == outputs_locked_by(self@, pub_key_hash@),
    {
        let mut out: Vec<TxOutput> = Vec::new();
        let mut i: usize = 0;
        while i < self.entries.len()
            invariant
                i <= self.entries@.len(),
                self@.len() == self.entries@.len(),
                outputs_view(out@) == outputs_locked_by(self@.take(i as int), pub_key_hash@),
            decreases self.entries@.len() - i,
        {
            let e = &self.entries[i];
            proof {
                assert(self@.take(i + 1).drop_last() =~= self@.take(i as int));
                assert(self@.take(i + 1).last() == self@[i as int]);
            }
            if e.output.is_locked_with_key(pub_key_hash) {
                let ghost prev = out@;
                let o = e.output.duplicate();
                out.push(o);
                proof {
                    crate::tx::lemma_outputs_view_push(prev, o);
                }
            }
            i = i + 1;
        }
        proof {
            assert(self@.take(self@.len() as int) =~= self@);
        }
        out
    }
}

/// The outputs among the entries that are locked to `pkh`, in order.
pub open spec fn outputs_locked_by(s: Seq<UtxoEntryV>, pkh: Seq<u8>) -> Seq<TxOutputV>
    decreases s.len(),
{
    if s.len() == 0 {
        Seq::empty()
    } else if s.last().output.pub_key_hash == pkh {
        outputs_locked_by(s.drop_last(), pkh).push(s.last().output)
    } else {
        outputs_locked_by(s.drop_last(), pkh)
    }
}

/// The sum of a sequence of output values.
pub open spec fn sum_values(s: Seq<TxOutputV>) -> int
    decreases s.len(),
{
    if s.len() == 0 {
        0
    } else {
        sum_values(s.drop_last()) + s.last().value
    }
}

/// Sums the values of a vector of outputs, saturating at `u64::MAX` (which
/// cannot be reached by fewer than 2^32 outputs).
pub fn sum_output_values(outs: &Vec<TxOutput>) -> (r: u64)
    requires
        outs@.len() < 0x1_0000_0000,
    ensures
        r == sum_values(outputs_view(outs@)),
{
    let ghost full = outputs_view(outs@);
    let mut total: u64 = 0;
    let mut i: usize = 0;
    while i < outs.len()
        invariant
            i <= outs@.len(),
            outs@.len() < 0x1_0000_0000,
            full == outputs_view(outs@),
            total == sum_values(full.take(i as int)),
            total <= i * 0xffff_ffff,
        decreases outs@.len() - i,
    {
        proof {
            assert(full.take(i + 1).drop_last() =~= full.take(i as int));
            assert(full.take(i + 1).last() == full[i as int]);
            assert(total + outs@[i as int].value <= (i + 1) * 0xffff_ffff) by (nonlinear_arith)
                requires
                    total <= i * 0xffff_ffff,
                    outs@[i as int].value <= 0xffff_ffff,
            {}
            assert((i + 1) * 0xffff_ffff <= 0x1_0000_0000 * 0xffff_ffff) by (nonlinear_arith)
                requires
                    0 <= i,
                    i + 1 <= 0x1_0000_0000,
            {}
        }
        total = total + (outs[i].value as u64);
        i = i + 1;
    }
    proof {
        assert(full.take(outs@.len() as int) =~= full);
    }
    total
}


/// The sum of the entries' output values.
pub open spec fn sum_entries(s: Seq<UtxoEntryV>) -> int
    decreases s.len(),
{
    if s.len() == 0 {
        0
    } else {
        sum_entries(s.drop_last()) + s.last().output.value
    }
}

/// A prefix sums to no more than the whole (values are unsigned).
pub proof fn lemma_sum_entries_prefix(s: Seq<UtxoEntryV>, k: int)
    requires
        0 <= k <= s.len(),
    ensures
        sum_entries(s.take(k)) <= sum_entries(s),
        sum_entries(s) >= 0,
    decreases s.len(),
{
    if s.len() == 0 {
        assert(s.take(k) =~= s);
    } else if k == s.len() {
        assert(s.take(k) =~= s);
        lemma_sum_entries_prefix(s.drop_last(), s.len() - 1);
    } else {
        assert(s.drop_last().take(k) =~= s.take(k));
        lemma_sum_entries_prefix(s.drop_last(), k);
    }
}

/// Whether some mempool transaction references the key.
pub open spec fn mem_refs(mem: Seq<TxV>, tx_id: Seq<u8>, out: u32) -> bool {
    exists|i: int| 0 <= i < mem.len() && crate::mempool::tx_refs(#[trigger] mem[i], tx_id, out)
}

/// Whether an entry counts as spendable for `pkh`: locked to it, and not
/// already referenced by a pending transaction.
pub open spec fn entry_spendable(e: UtxoEntryV, pkh: Seq<u8>, mem: Seq<TxV>) -> bool {
    e.output.pub_key_hash == pkh && !mem_refs(mem, e.tx_id, e.out)
}

/// The entries the spendable-output search selects, scanning in order and
/// stopping as soon as the accumulated value reaches the target.
pub open spec fn select_spendable(
    s: Seq<UtxoEntryV>,
    pkh: Seq<u8>,
    mem: Seq<TxV>,
    amount: int,
) -> Seq<UtxoEntryV>
    decreases s.len(),
{
    if s.len() == 0 || amount <= 0 {
        Seq::empty()
    } else if entry_spendable(s[0], pkh, mem) {
        seq![s[0]] + select_spendable(s.skip(1), pkh, mem, amount - s[0].output.value)
    } else {
        select_spendable(s.skip(1), pkh, mem, amount)
    }
}

/// The total value spendable for `pkh` among the entries.
pub open spec fn spendable_total(s: Seq<UtxoEntryV>, pkh: Seq<u8>, mem: Seq<TxV>) -> int
    decreases s.len(),
{
    if s.len() == 0 {
        0
    } else if entry_spendable(s[0], pkh, mem) {
        s[0].output.value + spendable_total(s.skip(1), pkh, mem)
    } else {
        spendable_total(s.skip(1), pkh, mem)
    }
}

/// Every selected entry is one of the source entries.
pub proof fn lemma_select_subset(s: Seq<UtxoEntryV>, pkh: Seq<u8>, mem: Seq<TxV>, amount: int)
    ensures
        forall|j: int|
            0 <= j < select_spendable(s, pkh, mem, amount).len() ==> exists|i: int|
                0 <= i < s.len() && #[trigger] select_spendable(s, pkh, mem, amount)[j] == s[i],
    decreases s.len(),
{
    let sel = select_spendable(s, pkh, mem, amount);
    if s.len() == 0 || amount <= 0 {
    } else if entry_spendable(s[0], pkh, mem) {
        lemma_select_subset(s.skip(1), pkh, mem, amount - s[0].output.value);
        let tail = select_spendable(s.skip(1), pkh, mem, amount - s[0].output.value);
        assert forall|j: int| 0 <= j < sel.len() implies exists|i: int|
            0 <= i < s.len() && #[trigger] sel[j] == s[i] by {
            if j == 0 {
                assert(sel[0] == s[0]);
            } else {
                assert(sel[j] == tail[j - 1]);
                let i0 = choose|i: int| 0 <= i < s.skip(1).len() && #[trigger] tail[j - 1] == s.skip(1)[i];
                assert(s.skip(1)[i0] == s[i0 + 1]);
                assert(sel[j] == s[i0 + 1]);
            }
        }
    } else {
        lemma_select_subset(s.skip(1), pkh, mem, amount);
        let tail = select_spendable(s.skip(1), pkh, mem, amount);
        assert forall|j: int| 0 <= j < sel.len() implies exists|i: int|
            0 <= i < s.len() && #[trigger] sel[j] == s[i] by {
            assert(sel[j] == tail[j]);
            let i0 = choose|i: int| 0 <= i < s.skip(1).len() && #[trigger] tail[j] == s.skip(1)[i];
            assert(s.skip(1)[i0] == s[i0 + 1]);
            assert(sel[j] == s[i0 + 1]);
        }
    }
}

/// Selected keys are keys of the source.
pub proof fn lemma_select_keys(s: Seq<UtxoEntryV>, pkh: Seq<u8>, mem: Seq<TxV>, amount: int, k: (Seq<u8>, u32))
    requires
        forall|i: int| 0 <= i < s.len() ==> entry_key(#[trigger] s[i]) != k,
    ensures
        forall|j: int|
            0 <= j < select_spendable(s, pkh, mem, amount).len() ==> entry_key(
                #[trigger] select_spendable(s, pkh, mem, amount)[j],
            ) != k,
{
    lemma_select_subset(s, pkh, mem, amount);
    let sel = select_spendable(s, pkh, mem, amount);
    assert forall|j: int| 0 <= j < sel.len() implies entry_key(#[trigger] sel[j]) != k by {
        let i0 = choose|i: int| 0 <= i < s.len() && #[trigger] sel[j] == s[i];
        assert(entry_key(s[i0]) != k);
    }
}

/// Selecting from a well-formed entry sequence yields a well-formed one.
pub proof fn lemma_select_wf(s: Seq<UtxoEntryV>, pkh: Seq<u8>, mem: Seq<TxV>, amount: int)
    requires
        entries_wf(s),
    ensures
        entries_wf(select_spendable(s, pkh, mem, amount)),
    decreases s.len(),
{
    let sel = select_spendable(s, pkh, mem, amount);
    if s.len() == 0 || amount <= 0 {
    } else {
        assert(entries_wf(s.skip(1))) by {
            assert forall|a: int, b: int|
                0 <= a < s.skip(1).len() && 0 <= b < s.skip(1).len() && a != b implies entry_key(
                #[trigger] s.skip(1)[a],
            ) != entry_key(#[trigger] s.skip(1)[b]) by {
                assert(s.skip(1)[a] == s[a + 1]);
                assert(s.skip(1)[b] == s[b + 1]);
            }
            assert forall|a: int| 0 <= a < s.skip(1).len() implies (#[trigger] s.skip(1)[a]).tx_id.len()
                == 32 && crate::tx::tx_output_wf(s.skip(1)[a].output) by {
                assert(s.skip(1)[a] == s[a + 1]);
            }
        }
        if entry_spendable(s[0], pkh, mem) {
            let tail = select_spendable(s.skip(1), pkh, mem, amount - s[0].output.value);
            lemma_select_wf(s.skip(1), pkh, mem, amount - s[0].output.value);
            assert forall|i: int| 0 <= i < s.skip(1).len() implies entry_key(#[trigger] s.skip(1)[i])
                != entry_key(s[0]) by {
                assert(s.skip(1)[i] == s[i + 1]);
                assert(entry_key(s[i + 1]) != entry_key(s[0]));
            }
            lemma_select_keys(s.skip(1), pkh, mem, amount - s[0].output.value, entry_key(s[0]));
            assert forall|a: int, b: int|
                0 <= a < sel.len() && 0 <= b < sel.len() && a != b implies entry_key(
                #[trigger] sel[a],
            ) != entry_key(#[trigger] sel[b]) by {
                if a == 0 {
                    assert(sel[b] == tail[b - 1]);
                    assert(entry_key(tail[b - 1]) != entry_key(s[0]));
                } else if b == 0 {
                    assert(sel[a] == tail[a - 1]);
                    assert(entry_key(tail[a - 1]) != entry_key(s[0]));
                } else {
                    assert(sel[a] == tail[a - 1]);
                    assert(sel[b] == tail[b - 1]);
                }
            }
            assert forall|a: int| 0 <= a < sel.len() implies (#[trigger] sel[a]).tx_id.len() == 32
                && crate::tx::tx_output_wf(sel[a].output) by {
                if a == 0 {
                    assert(sel[0] == s[0]);
                } else {
                    assert(sel[a] == tail[a - 1]);
                }
            }
        } else {
            lemma_select_wf(s.skip(1), pkh, mem, amount);
        }
    }
}


/// The sum of an element prepended to entries.
pub proof fn lemma_sum_cons(a: UtxoEntryV, s: Seq<UtxoEntryV>)
    ensures
        sum_entries(seq![a] + s) == a.output.value + sum_entries(s),
    decreases s.len(),
{
    if s.len() == 0 {
        assert(seq![a] + s =~= seq![a]);
        assert(sum_entries(seq![a]) == sum_entries(seq![a].drop_last()) + a.output.value);
        assert(seq![a].drop_last() =~= Seq::<UtxoEntryV>::empty());
    } else {
        assert((seq![a] + s).drop_last() =~= seq![a] + s.drop_last());
        assert((seq![a] + s).last() == s.last());
        lemma_sum_cons(a, s.drop_last());
    }
}

/// What the search selects never sums to more than the whole spendable value.
pub proof fn lemma_select_sum_le_total(s: Seq<UtxoEntryV>, pkh: Seq<u8>, mem: Seq<TxV>, amount: int)
    ensures
        sum_entries(select_spendable(s, pkh, mem, amount)) <= spendable_total(s, pkh, mem),
        spendable_total(s, pkh, mem) >= 0,
    decreases s.len(),
{
    if s.len() == 0 {
    } else if amount <= 0 {
        lemma_select_sum_le_total(s.skip(1), pkh, mem, amount);
    } else if entry_spendable(s[0], pkh, mem) {
        lemma_select_sum_le_total(s.skip(1), pkh, mem, amount - s[0].output.value);
        lemma_sum_cons(s[0], select_spendable(s.skip(1), pkh, mem, amount - s[0].output.value));
    } else {
        lemma_select_sum_le_total(s.skip(1), pkh, mem, amount);
    }
}

impl UtxoSet {
    /// Builds a set directly from well-formed entries.
    pub fn from_entries(entries: Vec<UtxoEntry>) -> (r: UtxoSet)
        requires
            entries_wf(entries_view(entries@)),
        ensures
            r@ == entries_view(entries@),
            r.wf(),
    {
        UtxoSet { entries }
    }

    /// Searches the set, in entry order, for outputs locked to `pub_key_hash`
    /// that no pending transaction references, accumulating until the target
    /// is reached; fails with `InsufficientFunds` exactly when the whole
    /// spendable value stays below the target.
    pub fn find_spendable_utxos(&self, pub_key_hash: &Vec<u8>, amount: u32, mempool: &Mempool)
        -> (r: Result<UtxoSet, ChainError>)
        requires
            self.wf(),
            self@.len() < 0x1_0000_0000,
        ensures
            r is Err <==> spendable_total(self@, pub_key_hash@, mempool@) < amount,
            r is Err ==> r.unwrap_err() == ChainError::InsufficientFunds,
            r is Ok ==> r.unwrap()@ == select_spendable(self@, pub_key_hash@, mempool@, amount as int),
            r is Ok ==> r.unwrap().wf(),
            r is Ok ==> sum_entries(r.unwrap()@) >= amount,
    {
        let ghost pkh = pub_key_hash@;
        let ghost mem = mempool@;
        let mut sel: Vec<UtxoEntry> = Vec::new();
        let mut acc: u64 = 0;
        let mut i: usize = 0;
        proof {
            assert(self@.skip(0) =~= self@);
            assert(entries_view(sel@) =~= Seq::<UtxoEntryV>::empty());
            assert(entries_view(sel@) + select_spendable(self@, pkh, mem, amount as int)
                =~= select_spendable(self@, pkh, mem, amount as int));
        }
        while i < self.entries.len() && acc < amount as u64
            invariant
                self.wf(),
                self@.len() == self.entries@.len(),
                self@.len() < 0x1_0000_0000,
                i <= self@.len(),
                pkh == pub_key_hash@,
                mem == mempool@,
                acc == sum_entries(entries_view(sel@)),
                acc <= i * 0xffff_ffff,
                acc < amount ==> select_spendable(self@, pkh, mem, amount as int)
                    == entries_view(sel@) + select_spendable(
                    self@.skip(i as int),
                    pkh,
                    mem,
                    amount - acc,
                ),
                acc < amount ==> spendable_total(self@, pkh, mem) == acc + spendable_total(
                    self@.skip(i as int),
                    pkh,
                    mem,
                ),
                acc >= amount ==> select_spendable(self@, pkh, mem, amount as int)
                    == entries_view(sel@),
            decreases self@.len() - i,
        {
            let e = &self.entries[i];
            proof {
                assert(self@.skip(i as int)[0] == self@[i as int]);
                assert(self@.skip(i as int).skip(1) =~= self@.skip(i + 1));
            }
            let locked = e.output.is_locked_with_key(pub_key_hash);
            let in_mem = mempool.mempool_contains_txo(&e.tx_id, e.out);
            proof {
                assert((locked && !in_mem) == entry_spendable(self@[i as int], pkh, mem));
            }
            if locked && !in_mem {
                let ghost prev = sel@;
                let picked = UtxoEntry {
                    tx_id: clone_bytes(&e.tx_id),
                    out: e.out,
                    output: e.output.duplicate(),
                };
                let ghost pickedv = picked@;
                sel.push(picked);
                proof {
                    assert(entries_view(sel@) =~= entries_view(prev).push(pickedv)) by {
                        assert forall|m: int| 0 <= m < prev.len() + 1 implies
                            entries_view(sel@)[m] == entries_view(prev).push(pickedv)[m] by {
                            if m < prev.len() {
                                assert(sel@[m] == prev[m]);
                            } else {
                                assert(sel@[m] == sel@.last());
                            }
                        }
                    }
                    assert(entries_view(prev).push(pickedv).drop_last() =~= entries_view(prev));
                    assert(pickedv == self@[i as int]);
                    assert(acc + pickedv.output.value <= (i + 1) * 0xffff_ffff) by (nonlinear_arith)
                        requires
                            acc <= i * 0xffff_ffff,
                            pickedv.output.value <= 0xffff_ffff,
                            0 <= i,
                    {}
                    assert((i + 1) * 0xffff_ffff <= 0x1_0000_0000 * 0xffff_ffff) by (nonlinear_arith)
                        requires
                            0 <= i,
                            i + 1 <= 0x1_0000_0000,
                    {}
                }
                acc = acc + (e.output.value as u64);
            }
            i = i + 1;
        }
        if acc < amount as u64 {
            proof {
                assert(i as int == self@.len());
                assert(self@.skip(i as int).len() == 0);
                assert(spendable_total(self@.skip(i as int), pkh, mem) == 0);
                assert(spendable_total(self@, pkh, mem) == acc);
            }
            return Err(ChainError::InsufficientFunds);
        }
        proof {
            lemma_select_wf(self@, pkh, mem, amount as int);
            lemma_sum_entries_prefix(select_spendable(self@, pkh, mem, amount as int), 0);
        }
        let r = UtxoSet { entries: sel };
        proof {
            assert(r@ == select_spendable(self@, pkh, mem, amount as int));
            assert(spendable_total(self@, pkh, mem) >= amount) by {
                lemma_select_sum_le_total(self@, pkh, mem, amount as int);
            }
        }
        Ok(r)
    }
}

} // verus!
