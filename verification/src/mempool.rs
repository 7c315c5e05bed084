//! The pending-transaction pool: admission with signature and nonce
//! screening, capacity eviction by lowest gas price, duplicate-free by
//! transaction hash, and a greedy drain that respects per-account nonce
//! continuity.
//!
//! Submitting a transaction that is already pooled is a no-op, so repeated
//! gossip of the same transaction cannot change the pool.

use vstd::prelude::*;
use crate::chain::acct_count;
use crate::chain::tx_auth_ok;
use crate::errors::TransactionError;
use crate::transaction::Transaction;
use crate::transaction::TxView;
use crate::transaction::spec_tx_hash;
use crate::transaction::clone_bytes;
use crate::block::Block;
use crate::block::txs_view;
use crate::block::tx_hashes;
use crate::block::views_of;
use crate::codec::bytes_eq;

verus! {

/// The pool's mathematical value: hash/transaction pairs in arrival
/// order.
pub type PoolView = Seq<(Seq<u8>, TxView)>;

/// A nonce table: the next expected nonce per account.
pub type NonceTable = Seq<(Seq<u8>, u64)>;

/// Whether a transaction with this hash is pooled.
pub open spec fn pool_contains(p: PoolView, h: Seq<u8>) -> bool {
    exists|i: int| 0 <= i < p.len() && (#[trigger] p[i]).0 == h
}

/// Every pooled pair carries the transaction's own hash.
pub open spec fn pool_hash_ok(p: PoolView) -> bool {
    forall|i: int| 0 <= i < p.len() ==> (#[trigger] p[i]).0 == spec_tx_hash(p[i].1)
}

/// Whether a transaction is ready: its nonce is the account's next, and
/// leaves room for a successor.
pub open spec fn eligible(t: TxView, nt: NonceTable) -> bool {
    t.nonce as nat == acct_count(nt, t.from) && t.nonce < u64::MAX
}

/// Drain preference: higher gas price first, ties to the earlier
/// timestamp.
pub open spec fn tx_better(a: TxView, b: TxView) -> bool {
    a.gas_price > b.gas_price || (a.gas_price == b.gas_price && a.timestamp < b.timestamp)
}

/// Eviction preference: lower gas price first, ties to the earlier
/// timestamp.
pub open spec fn tx_worse(a: TxView, b: TxView) -> bool {
    a.gas_price < b.gas_price || (a.gas_price == b.gas_price && a.timestamp < b.timestamp)
}

/// The index the greedy selection settles on, scanning from `i` with
/// `best` the strictly best index seen so far.
pub open spec fn sel_from(p: PoolView, nt: NonceTable, i: int, best: Option<int>) -> Option<int>
    decreases p.len() - i,
{
    if i < 0 || i >= p.len() {
        best
    } else if eligible(p[i].1, nt) && (match best {
        None => true,
        Some(b) => tx_better(p[i].1, p[b].1),
    }) {
        sel_from(p, nt, i + 1, Some(i))
    } else {
        sel_from(p, nt, i + 1, best)
    }
}

/// The index drained next, if any transaction is ready.
pub open spec fn sel(p: PoolView, nt: NonceTable) -> Option<int> {
    sel_from(p, nt, 0, None)
}

/// The index evicted when the pool is full: the first worst entry.
pub open spec fn worst_from(p: PoolView, i: int, w: int) -> int
    decreases p.len() - i,
{
    if i < 0 || i >= p.len() {
        w
    } else if 0 <= w < p.len() && !tx_worse(p[i].1, p[w].1) {
        worst_from(p, i + 1, w)
    } else {
        worst_from(p, i + 1, i)
    }
}

/// A nonce table with one account's next nonce replaced, first match or
/// appended.
pub open spec fn upd_table(nt: NonceTable, a: Seq<u8>, v: u64) -> NonceTable
    decreases nt.len(),
{
    if nt.len() == 0 {
        seq![(a, v)]
    } else if nt[0].0 == a {
        seq![(a, v)] + nt.drop_first()
    } else {
        seq![nt[0]] + upd_table(nt.drop_first(), a, v)
    }
}

/// What draining up to `n` transactions yields: the drained list, the
/// remaining pool, and the advanced nonce table.
pub open spec fn drain_spec(p: PoolView, nt: NonceTable, n: nat) -> (Seq<TxView>, PoolView, NonceTable)
    decreases n,
{
    if n == 0 {
        (Seq::empty(), p, nt)
    } else {
        match sel(p, nt) {
            None => (Seq::empty(), p, nt),
            Some(i) => {
                let t = p[i].1;
                let rec = drain_spec(
                    p.remove(i),
                    upd_table(nt, t.from, (t.nonce + 1) as u64),
                    (n - 1) as nat,
                );
                (seq![t] + rec.0, rec.1, rec.2)
            },
        }
    }
}

/// The pool after every transaction included in a block is dropped.
pub open spec fn retained(p: PoolView, hs: Seq<Seq<u8>>) -> PoolView
    decreases p.len(),
{
    if p.len() == 0 {
        Seq::empty()
    } else {
        retained(p.drop_last(), hs) + (if hash_in(hs, p.last().0) {
            Seq::empty()
        } else {
            seq![p.last()]
        })
    }
}

/// Whether a hash is in a list of hashes.
pub open spec fn hash_in(hs: Seq<Seq<u8>>, h: Seq<u8>) -> bool {
    exists|i: int| 0 <= i < hs.len() && hs[i] == h
}

/// The selected index is in range and eligible.
pub proof fn lemma_sel_in_range(p: PoolView, nt: NonceTable, i: int, best: Option<int>)
    requires
        0 <= i,
        (best matches Some(b) ==> 0 <= b < p.len() && eligible(p[b].1, nt)),
    ensures
        (sel_from(p, nt, i, best) matches Some(r) ==> 0 <= r < p.len() && eligible(p[r].1, nt)),
    decreases p.len() - i,
{
    if i < p.len() {
        if eligible(p[i].1, nt) && (match best {
            None => true,
            Some(b) => tx_better(p[i].1, p[b].1),
        }) {
            lemma_sel_in_range(p, nt, i + 1, Some(i));
        } else {
            lemma_sel_in_range(p, nt, i + 1, best);
        }
    }
}

/// The eviction index is in range on a nonempty pool.
pub proof fn lemma_worst_in_range(p: PoolView, i: int, w: int)
    requires
        0 <= i,
        0 <= w < p.len(),
    ensures
        0 <= worst_from(p, i, w) < p.len(),
    decreases p.len() - i,
{
    if i < p.len() {
        if !tx_worse(p[i].1, p[w].1) {
            lemma_worst_in_range(p, i + 1, w);
        } else {
            lemma_worst_in_range(p, i + 1, i);
        }
    }
}

/// Matching a table entry at its first occurrence updates it in place.
proof fn lemma_upd_table_at(nt: NonceTable, a: Seq<u8>, v: u64, i: int)
    requires
        0 <= i < nt.len(),
        nt[i].0 == a,
        forall|j: int| 0 <= j < i ==> nt[j].0 != a,
    ensures
        upd_table(nt, a, v) == nt.update(i, (a, v)),
    decreases nt.len(),
{
    if i == 0 {
        assert(upd_table(nt, a, v) =~= nt.update(0, (a, v)));
    } else {
        lemma_upd_table_at(nt.drop_first(), a, v, i - 1);
        assert(nt.update(i, (a, v)).drop_first() =~= nt.drop_first().update(i - 1, (a, v)));
        assert(upd_table(nt, a, v) =~= nt.update(i, (a, v)));
    }
}

/// An absent account is appended.
proof fn lemma_upd_table_absent(nt: NonceTable, a: Seq<u8>, v: u64)
    requires
        forall|j: int| 0 <= j < nt.len() ==> nt[j].0 != a,
    ensures
        upd_table(nt, a, v) == nt.push((a, v)),
    decreases nt.len(),
{
    if nt.len() == 0 {
        assert(upd_table(nt, a, v) =~= nt.push((a, v)));
    } else {
        lemma_upd_table_absent(nt.drop_first(), a, v);
        assert(nt.push((a, v)).drop_first() =~= nt.drop_first().push((a, v)));
        assert(upd_table(nt, a, v) =~= nt.push((a, v)));
    }
}

/// Removing an entry keeps the hash discipline.
proof fn lemma_remove_hash_ok(p: PoolView, i: int)
    requires
        pool_hash_ok(p),
        0 <= i < p.len(),
    ensures
        pool_hash_ok(p.remove(i)),
{
    let u = p.remove(i);
    assert forall|k: int| 0 <= k < u.len() implies (#[trigger] u[k]).0 == spec_tx_hash(u[k].1) by {
        if k < i {
            assert(u[k] == p[k]);
        } else {
            assert(u[k] == p[k + 1]);
        }
    }
}

/// Draining keeps the hash discipline and never grows the pool.
pub proof fn lemma_drain_hash_ok(p: PoolView, nt: NonceTable, n: nat)
    requires
        pool_hash_ok(p),
    ensures
        pool_hash_ok(drain_spec(p, nt, n).1),
        drain_spec(p, nt, n).1.len() <= p.len(),
    decreases n,
{
    if n > 0 {
        match sel(p, nt) {
            None => {},
            Some(i) => {
                lemma_sel_in_range(p, nt, 0, None);
                lemma_remove_hash_ok(p, i);
                lemma_drain_hash_ok(
                    p.remove(i),
                    upd_table(nt, p[i].1.from, (p[i].1.nonce + 1) as u64),
                    (n - 1) as nat,
                );
            },
        }
    }
}

/// Dropping included transactions keeps the hash discipline and never
/// grows the pool.
pub proof fn lemma_retained_hash_ok(p: PoolView, hs: Seq<Seq<u8>>)
    requires
        pool_hash_ok(p),
    ensures
        pool_hash_ok(retained(p, hs)),
        retained(p, hs).len() <= p.len(),
    decreases p.len(),
{
    if p.len() > 0 {
        assert(pool_hash_ok(p.drop_last()));
        lemma_retained_hash_ok(p.drop_last(), hs);
    }
}

/// The pending-transaction pool.
pub struct Mempool {
    pub entries: Vec<(Vec<u8>, Transaction)>,
    pub capacity: usize,
}

/// The views of the stored entries.
pub open spec fn pool_view(s: Seq<(Vec<u8>, Transaction)>) -> PoolView {
    Seq::new(s.len(), |i: int| (s[i].0@, s[i].1@))
}

impl View for Mempool {
    type V = PoolView;

    open spec fn view(&self) -> PoolView {
        pool_view(self.entries@)
    }
}

/// Whether a hash stands in a list of hashes.
fn hash_in_exec(hs: &Vec<Vec<u8>>, h: &Vec<u8>) -> (r: bool)
    ensures
        r == hash_in(views_of(hs@), h@),
{
    let ghost s = views_of(hs@);
    let mut i: usize = 0;
    while i < hs.len()
        invariant
            0 <= i <= hs@.len(),
            s == views_of(hs@),
            forall|j: int| 0 <= j < i ==> s[j] != h@,
        decreases hs@.len() - i,
    {
        if bytes_eq(hs[i].as_slice(), h.as_slice()) {
            proof {
                assert(s[i as int] == h@);
            }
            return true;
        }
        i += 1;
    }
    false
}

impl Mempool {
    /// Pooled pairs carry their transaction's hash, within capacity.
    pub open spec fn wf(&self) -> bool {
        &&& pool_hash_ok(self@)
        &&& self@.len() <= self.capacity
    }

    /// An empty pool with the given capacity.
    pub fn new(capacity: usize) -> (r: Mempool)
        ensures
            r.wf(),
            r@ == Seq::<(Seq<u8>, TxView)>::empty(),
            r.capacity == capacity,
    {
        let r = Mempool { entries: Vec::new(), capacity };
        proof {
            assert(r@ =~= Seq::<(Seq<u8>, TxView)>::empty());
        }
        r
    }

    /// How many transactions are pooled.
    pub fn len(&self) -> (r: usize)
        ensures
            r == self@.len(),
    {
        self.entries.len()
    }

    /// Admits a transaction: the signature must verify, the nonce must
    /// not be in the account's past, a duplicate is a no-op, and a full
    /// pool evicts its worst entry only for a better-paying newcomer.
    pub fn submit(&mut self, tx: Transaction, account_nonce: u64) -> (r: Result<
        bool,
        TransactionError,
    >)
        requires
            old(self).wf(),
        ensures
            final(self).wf(),
            final(self).capacity == old(self).capacity,
            (tx@.signature is None ==> (r matches Err(e) && e
                == TransactionError::MissingSignature) && final(self)@ == old(self)@),
            (tx@.signature is Some && !tx_auth_ok(tx@) ==> (r matches Err(e) && e
                == TransactionError::BadSignature) && final(self)@ == old(self)@),
            (tx_auth_ok(tx@) && tx@.nonce < account_nonce ==> (r matches Err(e) && e
                == TransactionError::BadNonce) && final(self)@ == old(self)@),
            (tx_auth_ok(tx@) && tx@.nonce >= account_nonce && pool_contains(
                old(self)@,
                spec_tx_hash(tx@),
            ) ==> r == Ok::<bool, TransactionError>(false) && final(self)@ == old(self)@),
            (tx_auth_ok(tx@) && tx@.nonce >= account_nonce && !pool_contains(
                old(self)@,
                spec_tx_hash(tx@),
            ) && old(self)@.len() < old(self).capacity ==> r == Ok::<bool, TransactionError>(true)
                && final(self)@ == old(self)@.push((spec_tx_hash(tx@), tx@)) && pool_contains(
                final(self)@,
                spec_tx_hash(tx@),
            )),
            (tx_auth_ok(tx@) && tx@.nonce >= account_nonce && !pool_contains(
                old(self)@,
                spec_tx_hash(tx@),
            ) && old(self)@.len() >= old(self).capacity && old(self)@.len() == 0 ==> r == Ok::<
                bool,
                TransactionError,
            >(false) && final(self)@ == old(self)@),
            (tx_auth_ok(tx@) && tx@.nonce >= account_nonce && !pool_contains(
                old(self)@,
                spec_tx_hash(tx@),
            ) && old(self)@.len() >= old(self).capacity && old(self)@.len() > 0 ==> {
                let w = worst_from(old(self)@, 0, 0);
                if tx_better(tx@, old(self)@[w].1) {
                    r == Ok::<bool, TransactionError>(true) && final(self)@ == old(self)@.remove(
                        w,
                    ).push((spec_tx_hash(tx@), tx@))
                } else {
                    r == Ok::<bool, TransactionError>(false) && final(self)@ == old(self)@
                }
            }),
    {
        match crate::chain::check_tx_auth(&tx) {
            Err(e) => {
                return Err(e);
            },
            Ok(()) => {},
        }
        if tx.nonce < account_nonce {
            return Err(TransactionError::BadNonce);
        }
        let h = match tx.hash() {
            Ok(d) => d,
            Err(_) => {
                proof {
                    assert(false);
                }
                return Err(TransactionError::SerializationError);
            },
        };
        let ghost p = self@;
        let mut i: usize = 0;
        while i < self.entries.len()
            invariant
                old(self) == self,
                self.wf(),
                tx_auth_ok(tx@),
                tx@.nonce >= account_nonce,
                p == self@,
                h@ == spec_tx_hash(tx@),
                0 <= i <= self.entries@.len(),
                forall|j: int| 0 <= j < i ==> (#[trigger] p[j]).0 != h@,
            decreases self.entries@.len() - i,
        {
            if bytes_eq(self.entries[i].0.as_slice(), h.as_slice()) {
                proof {
                    assert(p[i as int].0 == h@);
                }
                return Ok(false);
            }
            i += 1;
        }
        proof {
            assert(!pool_contains(p, h@));
        }
        let ghost txv = tx@;
        let ghost hv = h@;
        if self.entries.len() < self.capacity {
            self.entries.push((h, tx));
            proof {
                assert(self@ =~= p.push((hv, txv)));
                assert(self@[self@.len() - 1].0 == spec_tx_hash(txv));
            }
            return Ok(true);
        }
        if self.entries.len() == 0 {
            return Ok(false);
        }
        let w = self.find_worst();
        let evict = {
            let cand = &self.entries[w].1;
            cand.gas_price < tx.gas_price || (cand.gas_price == tx.gas_price && tx.timestamp
                < cand.timestamp)
        };
        if evict {
            let _ = self.entries.remove(w);
            self.entries.push((h, tx));
            proof {
                assert(self@ =~= p.remove(w as int).push((hv, txv)));
                lemma_remove_hash_ok(p, w as int);
            }
            Ok(true)
        } else {
            Ok(false)
        }
    }

    /// The first entry no other is worse than: the eviction candidate.
    fn find_worst(&self) -> (r: usize)
        requires
            self@.len() > 0,
        ensures
            r == worst_from(self@, 0, 0),
            r < self@.len(),
    {
        let ghost p = self@;
        let mut w: usize = 0;
        let mut i: usize = 0;
        while i < self.entries.len()
            invariant
                p == self@,
                0 <= w < self@.len(),
                0 <= i <= self@.len(),
                worst_from(p, 0, 0) == worst_from(p, i as int, w as int),
            decreases self@.len() - i,
        {
            let worse = {
                let a = &self.entries[i].1;
                let b = &self.entries[w].1;
                a.gas_price < b.gas_price || (a.gas_price == b.gas_price && a.timestamp
                    < b.timestamp)
            };
            if worse {
                w = i;
            }
            i += 1;
        }
        w
    }

    /// Drains up to `max_n` ready transactions, greediest first, keeping
    /// per-account nonce continuity over the given base nonces.
    pub fn drain(&mut self, max_n: usize, base: &Vec<(Vec<u8>, u64)>) -> (r: Vec<Transaction>)
        requires
            old(self).wf(),
        ensures
            final(self).wf(),
            final(self).capacity == old(self).capacity,
            txs_view(r@) == drain_spec(
                old(self)@,
                crate::chain::accounts_view(base@),
                max_n as nat,
            ).0,
            final(self)@ == drain_spec(
                old(self)@,
                crate::chain::accounts_view(base@),
                max_n as nat,
            ).1,
    {
        let ghost p0 = self@;
        let ghost n0 = crate::chain::accounts_view(base@);
        let mut nonces = crate::chain::clone_accounts(base);
        let mut out: Vec<Transaction> = Vec::new();
        let mut taken: usize = 0;
        let mut done = false;
        proof {
            lemma_drain_hash_ok(p0, n0, max_n as nat);
        }
        while taken < max_n && !done
            invariant
                old(self).capacity == self.capacity,
                pool_hash_ok(self@),
                self@.len() <= self.capacity,
                self@.len() <= old(self)@.len(),
                taken == out@.len(),
                0 <= taken <= max_n,
                drain_spec(p0, n0, max_n as nat) == (
                    txs_view(out@) + drain_spec(
                        self@,
                        crate::chain::accounts_view(nonces@),
                        (max_n - taken) as nat,
                    ).0,
                    drain_spec(
                        self@,
                        crate::chain::accounts_view(nonces@),
                        (max_n - taken) as nat,
                    ).1,
                    drain_spec(
                        self@,
                        crate::chain::accounts_view(nonces@),
                        (max_n - taken) as nat,
                    ).2,
                ),
                (done ==> sel(self@, crate::chain::accounts_view(nonces@)) is None),
            decreases max_n - taken, (if done {
                0int
            } else {
                1int
            }),
        {
            let ghost p = self@;
            let ghost nt = crate::chain::accounts_view(nonces@);
            match self.select_best(&nonces) {
                None => {
                    done = true;
                },
                Some(i) => {
                    proof {
                        lemma_sel_in_range(p, nt, 0, None);
                    }
                    let pair = self.entries.remove(i);
                    let tx = pair.1;
                    let next = tx.nonce + 1;
                    set_next_nonce(&mut nonces, &tx.from, next);
                    out.push(tx);
                    taken += 1;
                    proof {
                        assert(self@ =~= p.remove(i as int));
                        lemma_remove_hash_ok(p, i as int);
                        assert(txs_view(out@) =~= txs_view(out@.drop_last()) + seq![
                            out@.last()@,
                        ]);
                        let rec = drain_spec(
                            self@,
                            crate::chain::accounts_view(nonces@),
                            (max_n - taken) as nat,
                        );
                        assert(txs_view(out@.drop_last()) + (seq![p[i as int].1] + rec.0)
                            =~= txs_view(out@) + rec.0);
                    }
                },
            }
        }
        proof {
            if !done {
                assert(drain_spec(
                    self@,
                    crate::chain::accounts_view(nonces@),
                    (max_n - taken) as nat,
                ).0 =~= Seq::<TxView>::empty());
            }
            assert(txs_view(out@) + Seq::<TxView>::empty() =~= txs_view(out@));
        }
        out
    }

    /// The greedy choice over the current pool and nonce table.
    fn select_best(&self, nonces: &Vec<(Vec<u8>, u64)>) -> (r: Option<usize>)
        ensures
            (r matches Some(i) ==> Some(i as int) == sel(
                self@,
                crate::chain::accounts_view(nonces@),
            ) && i < self@.len()),
            (r is None ==> sel(self@, crate::chain::accounts_view(nonces@)) is None),
    {
        let ghost p = self@;
        let ghost nt = crate::chain::accounts_view(nonces@);
        let mut best: Option<usize> = None;
        let mut i: usize = 0;
        while i < self.entries.len()
            invariant
                p == self@,
                nt == crate::chain::accounts_view(nonces@),
                0 <= i <= self@.len(),
                (best matches Some(b) ==> b < i),
                sel(p, nt) == sel_from(p, nt, i as int, match best {
                    Some(b) => Some(b as int),
                    None => None,
                }),
            decreases self@.len() - i,
        {
            let t = &self.entries[i].1;
            let count = match crate::chain::find_account(nonces, &t.from) {
                Some(j) => nonces[j].1,
                None => 0,
            };
            let ok = t.nonce == count && t.nonce < u64::MAX;
            proof {
                assert(eligible(p[i as int].1, nt) == (t@.nonce as nat == acct_count(nt, t@.from)
                    && t@.nonce < u64::MAX));
            }
            let take_it = ok && (match best {
                None => true,
                Some(b) => {
                    let cur = &self.entries[b].1;
                    t.gas_price > cur.gas_price || (t.gas_price == cur.gas_price && t.timestamp
                        < cur.timestamp)
                },
            });
            if take_it {
                best = Some(i);
            }
            i += 1;
        }
        proof {
            lemma_sel_in_range(p, nt, 0, None);
        }
        best
    }

    /// Drops every pooled transaction the block includes.
    pub fn remove_included(&mut self, block: &Block)
        requires
            old(self).wf(),
        ensures
            final(self).wf(),
            final(self).capacity == old(self).capacity,
            final(self)@ == retained(old(self)@, tx_hashes(block@.transactions)),
    {
        let ghost p0 = self@;
        let ghost hs = tx_hashes(block@.transactions);
        let mut included: Vec<Vec<u8>> = Vec::new();
        let mut i: usize = 0;
        while i < block.transactions.len()
            invariant
                old(self) == self,
                self.wf(),
                p0 == self@,
                0 <= i <= block.transactions@.len(),
                included@.len() == i,
                views_of(included@) =~= hs.take(i as int),
                hs == tx_hashes(block@.transactions),
            decreases block.transactions@.len() - i,
        {
            let h = match block.transactions[i].hash() {
                Ok(d) => d,
                Err(_) => {
                    proof {
                        assert(false);
                    }
                    return ;
                },
            };
            included.push(h);
            i += 1;
            proof {
                assert(views_of(included@) =~= hs.take(i as int));
            }
        }
        proof {
            assert(views_of(included@) =~= hs);
        }
        let mut kept: Vec<(Vec<u8>, Transaction)> = Vec::new();
        let mut k: usize = 0;
        while k < self.entries.len()
            invariant
                old(self) == self,
                self.wf(),
                views_of(included@) == hs,
                p0 == self@,
                0 <= k <= self.entries@.len(),
                pool_view(kept@) =~= retained(p0.take(k as int), hs),
            decreases self.entries@.len() - k,
        {
            let ghost before = pool_view(kept@);
            let keep = !hash_in_exec(&included, &self.entries[k].0);
            if keep {
                let hcopy = clone_bytes(&self.entries[k].0);
                let txcopy = self.entries[k].1.clone();
                kept.push((hcopy, txcopy));
            }
            k += 1;
            proof {
                assert(p0.take(k as int).drop_last() =~= p0.take(k as int - 1));
                assert(p0.take(k as int).last() == p0[k as int - 1]);
                assert(pool_view(kept@) =~= retained(p0.take(k as int), hs));
            }
        }
        proof {
            assert(p0.take(p0.len() as int) =~= p0);
            lemma_retained_hash_ok(p0, hs);
        }
        self.entries = kept;
    }
}

/// Records the next expected nonce for an account, first match updated in
/// place, a fresh account appended.
fn set_next_nonce(nonces: &mut Vec<(Vec<u8>, u64)>, address: &Vec<u8>, next: u64)
    ensures
        crate::chain::accounts_view(final(nonces)@) == upd_table(
            crate::chain::accounts_view(old(nonces)@),
            address@,
            next,
        ),
{
    let ghost e = crate::chain::accounts_view(nonces@);
    let mut i: usize = 0;
    while i < nonces.len()
        invariant
            nonces@ == old(nonces)@,
            e == crate::chain::accounts_view(nonces@),
            0 <= i <= e.len(),
            forall|j: int| 0 <= j < i ==> e[j].0 != address@,
        decreases e.len() - i,
    {
        if bytes_eq(nonces[i].0.as_slice(), address.as_slice()) {
            let pair = nonces.remove(i);
            let key = pair.0;
            nonces.insert(i, (key, next));
            proof {
                assert(crate::chain::accounts_view(nonces@) =~= e.update(
                    i as int,
                    (address@, next),
                ));
                lemma_upd_table_at(e, address@, next, i as int);
            }
            return ;
        }
        i += 1;
    }
    let key = clone_bytes(address);
    nonces.push((key, next));
    proof {
        assert(crate::chain::accounts_view(nonces@) =~= e.push((address@, next)));
        lemma_upd_table_absent(e, address@, next);
    }
}

} // verus!
