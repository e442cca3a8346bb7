//! The memory pool: validated, unconfirmed transactions the node would
//! include in a future block.
//!
//! Transactions are opaque byte strings; whether one is valid is the
//! consensus collaborator's verdict and enters as a plain boolean.

use vstd::prelude::*;

use crate::codec::copy_range;

verus! {

/// One pool entry: a serialized transaction and its transport size.
#[derive(Clone, Debug, PartialEq, Eq)]
pub struct Entry {
    /// How many bytes the transaction took on the wire.
    pub size_in_bytes: usize,
    /// The serialized transaction.
    pub transaction: Vec<u8>,
}

/// Whether the sequence holds the byte string.
pub open spec fn seq_contains(p: Seq<Seq<u8>>, x: Seq<u8>) -> bool {
    exists|i: int| 0 <= i < p.len() && p[i] == x
}

/// The pool contents after processing a transaction batch: each
/// transaction the collaborator accepted joins the pool unless it is
/// already there; everything else is dropped silently.
pub open spec fn process_mempool(p: Seq<Seq<u8>>, txs: Seq<Seq<u8>>, acc: Seq<bool>) -> Seq<
    Seq<u8>,
>
    decreases txs.len(),
{
    if txs.len() == 0 {
        p
    } else {
        let p1 = if acc[0] && !seq_contains(p, txs[0]) {
            p.push(txs[0])
        } else {
            p
        };
        process_mempool(p1, txs.drop_first(), acc.drop_first())
    }
}

/// Law: processing puts exactly the accepted new transactions into the
/// pool; membership afterwards means prior membership or acceptance in
/// the batch.
pub proof fn lemma_process_membership(p: Seq<Seq<u8>>, txs: Seq<Seq<u8>>, acc: Seq<bool>, x: Seq<u8>)
    requires
        acc.len() == txs.len(),
    ensures
        seq_contains(process_mempool(p, txs, acc), x) <==> (seq_contains(p, x) || exists|i: int|
            0 <= i < txs.len() && txs[i] == x && acc[i]),
    decreases txs.len(),
{
    if txs.len() == 0 {
    } else {
        let p1 = if acc[0] && !seq_contains(p, txs[0]) {
            p.push(txs[0])
        } else {
            p
        };
        lemma_process_membership(p1, txs.drop_first(), acc.drop_first(), x);
        assert(seq_contains(p1, x) <==> (seq_contains(p, x) || (acc[0] && txs[0] == x))) by {
            if acc[0] && !seq_contains(p, txs[0]) {
                if seq_contains(p1, x) {
                    let i = choose|i: int| 0 <= i < p1.len() && p1[i] == x;
                    if i < p.len() {
                        assert(p[i] == x);
                    } else {
                        assert(x == txs[0]);
                    }
                }
                if seq_contains(p, x) {
                    let i = choose|i: int| 0 <= i < p.len() && p[i] == x;
                    assert(p1[i] == x);
                }
                if txs[0] == x {
                    assert(p1[p.len() as int] == x);
                }
            }
        }
        assert forall|i: int|
            0 <= i < txs.len() && txs[i] == x && acc[i] implies (seq_contains(p1, x) || exists|
            j: int,
        |
            0 <= j < txs.drop_first().len() && txs.drop_first()[j] == x && acc.drop_first()[j]) by {
            if i == 0 {
                if !seq_contains(p, txs[0]) {
                    assert(p1[p.len() as int] == x);
                }
            } else {
                assert(txs.drop_first()[i - 1] == x && acc.drop_first()[i - 1]);
            }
        }
        assert forall|j: int|
            0 <= j < txs.drop_first().len() && txs.drop_first()[j] == x && acc.drop_first()[
            j] implies (exists|i: int| 0 <= i < txs.len() && txs[i] == x && acc[i]) by {
            assert(txs[j + 1] == x && acc[j + 1]);
        }
    }
}

/// Law: a batch whose accepted transactions are all already in the pool
/// leaves the pool exactly as it is.
pub proof fn lemma_process_stable(p: Seq<Seq<u8>>, txs: Seq<Seq<u8>>, acc: Seq<bool>)
    requires
        acc.len() == txs.len(),
        forall|i: int| 0 <= i < txs.len() && acc[i] ==> seq_contains(p, #[trigger] txs[i]),
    ensures
        process_mempool(p, txs, acc) == p,
    decreases txs.len(),
{
    if txs.len() == 0 {
    } else {
        assert(acc[0] ==> seq_contains(p, txs[0]));
        assert forall|i: int|
            0 <= i < txs.drop_first().len() && acc.drop_first()[i] implies seq_contains(
            p,
            #[trigger] txs.drop_first()[i],
        ) by {
            assert(txs.drop_first()[i] == txs[i + 1]);
            assert(acc.drop_first()[i] == acc[i + 1]);
        }
        lemma_process_stable(p, txs.drop_first(), acc.drop_first());
    }
}

/// Law: processing a transaction batch is idempotent. Feeding the same
/// batch with the same verdicts twice leaves the pool exactly as after
/// the first time.
pub proof fn lemma_process_idempotent(p: Seq<Seq<u8>>, txs: Seq<Seq<u8>>, acc: Seq<bool>)
    requires
        acc.len() == txs.len(),
    ensures
        process_mempool(process_mempool(p, txs, acc), txs, acc) == process_mempool(p, txs, acc),
{
    let p1 = process_mempool(p, txs, acc);
    assert forall|i: int| 0 <= i < txs.len() && acc[i] implies seq_contains(
        p1,
        #[trigger] txs[i],
    ) by {
        lemma_process_membership(p, txs, acc, txs[i]);
    }
    lemma_process_stable(p1, txs, acc);
}

/// The transactions, in pool order, that fit under the size cap when
/// taken greedily.
pub open spec fn candidates_of(entries: Seq<Seq<u8>>, budget: int) -> Seq<Seq<u8>>
    decreases entries.len(),
{
    if entries.len() == 0 {
        Seq::empty()
    } else {
        if entries.first().len() <= budget {
            seq![entries.first()] + candidates_of(
                entries.drop_first(),
                budget - entries.first().len(),
            )
        } else {
            candidates_of(entries.drop_first(), budget)
        }
    }
}

/// The set of validated, unconfirmed transactions.
#[derive(Clone, Debug)]
pub struct MemoryPool {
    entries: Vec<Entry>,
}

impl MemoryPool {
    /// The transactions the pool holds, in insertion order.
    pub closed spec fn spec_txs(self) -> Seq<Seq<u8>> {
        self.entries@.map_values(|e: Entry| e.transaction@)
    }

    /// The entries the pool holds, in insertion order.
    pub closed spec fn spec_entries(self) -> Seq<Entry> {
        self.entries@
    }

    /// Whether the pool holds the transaction.
    pub open spec fn spec_contains_tx(self, tx: Seq<u8>) -> bool {
        seq_contains(self.spec_txs(), tx)
    }

    /// Whether every entry records as its size the byte length of its
    /// own transaction — what a transport-derived entry must look like.
    pub open spec fn spec_entry_sizes_ok(self) -> bool {
        &&& self.spec_entries().len() == self.spec_txs().len()
        &&& forall|i: int|
            0 <= i < self.spec_entries().len() ==> (#[trigger] self.spec_entries()[
            i]).size_in_bytes == self.spec_entries()[i].transaction@.len() && self.spec_entries()[
            i].transaction@ == self.spec_txs()[i]
    }

    /// The pool's invariant: no transaction twice, and every entry's
    /// size is the length of its transaction.
    pub closed spec fn wf(self) -> bool {
        &&& forall|i: int, j: int|
            0 <= i < j < self.entries@.len() ==> (#[trigger] self.entries@[i]).transaction@ != (
            #[trigger] self.entries@[j]).transaction@
        &&& forall|i: int|
            0 <= i < self.entries@.len() ==> (#[trigger] self.entries@[i]).size_in_bytes == self
                .entries@[i].transaction@.len()
    }

    /// Law: in a well-formed pool every entry's recorded size is the
    /// byte length of its own transaction, and the entries line up with
    /// the pool's transaction sequence.
    pub proof fn lemma_entry_sizes(self)
        requires
            self.wf(),
        ensures
            self.spec_entry_sizes_ok(),
    {
        assert forall|i: int|
            0 <= i < self.spec_entries().len() implies (#[trigger] self.spec_entries()[
        i]).size_in_bytes == self.spec_entries()[i].transaction@.len() && self.spec_entries()[
        i].transaction@ == self.spec_txs()[i] by {
            assert(self.spec_txs()[i] == self.entries@[i].transaction@);
        }
    }

    /// An empty pool.
    pub fn new() -> (r: MemoryPool)
        ensures
            r.wf(),
            r.spec_txs() == Seq::<Seq<u8>>::empty(),
    {
        let r = MemoryPool { entries: Vec::new() };
        proof {
            assert(r.spec_txs() =~= Seq::<Seq<u8>>::empty());
        }
        r
    }

    /// Whether the pool holds the entry's transaction.
    pub fn contains(&self, entry: &Entry) -> (r: bool)
        ensures
            r == self.spec_contains_tx(entry.transaction@),
    {
        let n = self.entries.len();
        let mut i: usize = 0;
        while i < n
            invariant
                n == self.entries@.len(),
                0 <= i <= n,
                forall|j: int| 0 <= j < i ==> (#[trigger] self.entries@[j]).transaction@
                    != entry.transaction@,
            decreases n - i,
        {
            if crate::codec::bytes_eq(&self.entries[i].transaction, &entry.transaction) {
                proof {
                    assert(self.spec_txs()[i as int] == entry.transaction@);
                }
                return true;
            }
            i = i + 1;
        }
        proof {
            if self.spec_contains_tx(entry.transaction@) {
                let j = choose|j: int|
                    0 <= j < self.spec_txs().len() && self.spec_txs()[j] == entry.transaction@;
                assert(self.entries@[j].transaction@ == entry.transaction@);
            }
        }
        false
    }

    /// Inserts the entry unless its transaction is already in the
    /// pool; returns the new entry's position when it was inserted.
    pub fn insert(&mut self, entry: Entry) -> (r: Option<usize>)
        requires
            old(self).wf(),
            entry.size_in_bytes == entry.transaction@.len(),
        ensures
            final(self).wf(),
            r is Some <==> !old(self).spec_contains_tx(entry.transaction@),
            old(self).spec_contains_tx(entry.transaction@) ==> final(self).spec_entries() == old(
                self,
            ).spec_entries(),
            !old(self).spec_contains_tx(entry.transaction@) ==> final(self).spec_entries() == old(
                self,
            ).spec_entries().push(entry) && r->0 == old(self).spec_entries().len(),
            final(self).spec_txs() == (if old(self).spec_contains_tx(entry.transaction@) {
                old(self).spec_txs()
            } else {
                old(self).spec_txs().push(entry.transaction@)
            }),
    {
        if self.contains(&entry) {
            return None;
        }
        let ghost pre = self.entries@;
        let n = self.entries.len();
        self.entries.push(entry);
        proof {
            assert(self.spec_txs() =~= pre.map_values(|e: Entry| e.transaction@).push(
                entry.transaction@,
            ));
            assert forall|i: int, j: int|
                0 <= i < j < self.entries@.len() implies (
            #[trigger] self.entries@[i]).transaction@ != (
            #[trigger] self.entries@[j]).transaction@ by {
                if j < pre.len() {
                    assert(self.entries@[i] == pre[i] && self.entries@[j] == pre[j]);
                } else {
                    assert(self.entries@[i] == pre[i]);
                    if pre[i].transaction@ == entry.transaction@ {
                        assert(old(self).spec_txs()[i] == entry.transaction@);
                    }
                }
            }
        }
        Some(n)
    }

    /// Processes a batch of serialized transactions with the
    /// collaborator's verdict on each: accepted new transactions join
    /// the pool, duplicates and rejected ones are dropped silently.
    pub fn process_received(&mut self, txs: &Vec<Vec<u8>>, accepted: &Vec<bool>)
        requires
            old(self).wf(),
            txs@.len() == accepted@.len(),
        ensures
            final(self).wf(),
            final(self).spec_txs() == process_mempool(
                old(self).spec_txs(),
                crate::message::bytes_view(txs@),
                accepted@,
            ),
    {
        let ghost all = crate::message::bytes_view(txs@);
        let ghost target = process_mempool(old(self).spec_txs(), all, accepted@);
        proof {
            assert(all.skip(0) =~= all);
            assert(accepted@.skip(0) =~= accepted@);
        }
        let n = txs.len();
        let mut i: usize = 0;
        while i < n
            invariant
                self.wf(),
                n == txs@.len(),
                n == accepted@.len(),
                0 <= i <= n,
                all == crate::message::bytes_view(txs@),
                target == process_mempool(old(self).spec_txs(), all, accepted@),
                process_mempool(self.spec_txs(), all.skip(i as int), accepted@.skip(i as int))
                    == target,
            decreases n - i,
        {
            let ghost cur = self.spec_txs();
            if accepted[i] {
                let tx = copy_range(&txs[i], 0, txs[i].len());
                proof {
                    assert(tx@ =~= txs@[i as int]@);
                }
                let entry = Entry { size_in_bytes: tx.len(), transaction: tx };
                let _ = self.insert(entry);
            }
            proof {
                let rest = all.skip(i as int);
                assert(rest.len() == n - i);
                assert(rest[0] == all[i as int]);
                assert(all[i as int] == txs@[i as int]@);
                assert(rest.drop_first() =~= all.skip(i + 1));
                assert(accepted@.skip(i as int).drop_first() =~= accepted@.skip(i + 1));
                assert(accepted@.skip(i as int)[0] == accepted@[i as int]);
                let p1 = if accepted@[i as int] && !seq_contains(cur, all[i as int]) {
                    cur.push(all[i as int])
                } else {
                    cur
                };
                assert(self.spec_txs() == p1);
                assert(process_mempool(cur, rest, accepted@.skip(i as int)) == process_mempool(
                    p1,
                    rest.drop_first(),
                    accepted@.skip(i as int).drop_first(),
                ));
            }
            i = i + 1;
        }
        proof {
            assert(all.skip(n as int) =~= Seq::<Seq<u8>>::empty());
            assert(accepted@.skip(n as int) =~= Seq::<bool>::empty());
        }
    }

    /// The serialized transactions that fit under the size budget,
    /// taken greedily in pool order; what `GetMemoryPool` is answered
    /// with.
    pub fn get_candidates(&self, max_size: usize) -> (r: Vec<Vec<u8>>)
        requires
            self.wf(),
        ensures
            crate::message::bytes_view(r@) == candidates_of(self.spec_txs(), max_size as int),
    {
        let n = self.entries.len();
        let mut out: Vec<Vec<u8>> = Vec::new();
        let mut budget: usize = max_size;
        let ghost target = candidates_of(self.spec_txs(), max_size as int);
        proof {
            assert(self.spec_txs().skip(0) =~= self.spec_txs());
            assert(crate::message::bytes_view(out@) =~= Seq::<Seq<u8>>::empty());
        }
        let mut i: usize = 0;
        while i < n
            invariant
                self.wf(),
                n == self.entries@.len(),
                0 <= i <= n,
                budget <= max_size,
                target == candidates_of(self.spec_txs(), max_size as int),
                crate::message::bytes_view(out@) + candidates_of(
                    self.spec_txs().skip(i as int),
                    budget as int,
                ) == target,
            decreases n - i,
        {
            let ghost rest = self.spec_txs().skip(i as int);
            proof {
                assert(rest.len() == n - i);
                assert(rest.first() == self.spec_txs()[i as int]);
                assert(rest.first() == self.entries@[i as int].transaction@);
                assert(rest.drop_first() =~= self.spec_txs().skip(i + 1));
            }
            if self.entries[i].transaction.len() <= budget {
                let tx = copy_range(&self.entries[i].transaction, 0, self.entries[i].transaction.len());
                proof {
                    assert(tx@ =~= self.entries@[i as int].transaction@);
                }
                let ghost old_out = out@;
                budget = budget - tx.len();
                out.push(tx);
                proof {
                    assert(crate::message::bytes_view(out@) =~= crate::message::bytes_view(
                        old_out,
                    ).push(rest.first()));
                    assert(candidates_of(rest, budget as int + rest.first().len()) == seq![
                        rest.first()] + candidates_of(rest.drop_first(), budget as int));
                    assert(crate::message::bytes_view(old_out).push(rest.first())
                        + candidates_of(rest.drop_first(), budget as int)
                        =~= crate::message::bytes_view(old_out) + (seq![rest.first()]
                        + candidates_of(rest.drop_first(), budget as int)));
                }
            } else {
                proof {
                    assert(candidates_of(rest, budget as int) == candidates_of(
                        rest.drop_first(),
                        budget as int,
                    ));
                }
            }
            i = i + 1;
        }
        proof {
            assert(self.spec_txs().skip(n as int) =~= Seq::<Seq<u8>>::empty());
            assert(crate::message::bytes_view(out@) + Seq::<Seq<u8>>::empty() =~= crate
                ::message::bytes_view(out@));
        }
        out
    }
}

} // verus!
